use vstd::prelude::*;
use vstd::string::StringExecFns;
use dict::{Dict, DictEntry, DictIface};
use crate::config::ClientConfig;
use crate::worker::Statistics;

verus! {

#[verifier::external_type_specification]
#[verifier::external_body]
#[verifier::reject_recursive_types(T)]
pub struct ExDictEntry<T>(DictEntry<T>);

/// The destinations that a supervisor knows of: name to (channel, stuck).
pub type StuckDict = Dict<(String, bool)>;

/// What a dictionary of destinations holds: each key with its value.
pub uninterp spec fn dict_contents(d: StuckDict) -> Map<Seq<char>, (Seq<char>, bool)>;

/// The hash under which the dictionary files a key (std's `DefaultHasher`
/// with its fixed keys): a function of the key alone.
pub uninterp spec fn dict_key_hash(k: Seq<char>) -> u64;

/// No two keys of the dictionary share a hash: `add` refuses a key whose
/// hash is already filed.
pub open spec fn hashes_unique(m: Map<Seq<char>, (Seq<char>, bool)>) -> bool {
    forall|a: Seq<char>, b: Seq<char>|
        m.contains_key(a) && m.contains_key(b) && a != b ==> dict_key_hash(a) != dict_key_hash(b)
}

/// Some key of the dictionary is filed under the hash of `k`.
pub open spec fn hash_taken(m: Map<Seq<char>, (Seq<char>, bool)>, k: Seq<char>) -> bool {
    exists|a: Seq<char>| #[trigger] m.contains_key(a) && dict_key_hash(a) == dict_key_hash(k)
}

pub open spec fn no_entries() -> Map<Seq<char>, (Seq<char>, bool)> {
    Map::empty()
}

/// Relies on `Dict::new` (an empty `Vec` of entries): an empty dictionary.
#[verifier::external_body]
fn dict_new() -> (r: StuckDict)
    ensures
        dict_contents(r) == no_entries(),
{
    Dict::<(String, bool)>::new()
}

/// Relies on `DictIface::add`: refuses (`false`) when an entry with the key's
/// hash exists, else files the key with its value (`true`).
#[verifier::external_body]
fn dict_add(d: &mut StuckDict, key: String, val: (String, bool)) -> (r: bool)
    ensures
        r == !(exists|a: Seq<char>| dict_contents(*old(d)).contains_key(a) && dict_key_hash(a) == dict_key_hash(key@)),
        r ==> dict_contents(*final(d)) == dict_contents(*old(d)).insert(key@, (val.0@, val.1)),
        !r ==> dict_contents(*final(d)) == dict_contents(*old(d)),
{
    d.add(key, val)
}

/// Relies on `DictIface::get`: the value filed under the key's hash; only its
/// channel is handed out.
#[verifier::external_body]
fn dict_channel(d: &StuckDict, key: &str) -> (r: Option<String>)
    ensures
        dict_contents(*d).contains_key(key@) && hashes_unique(dict_contents(*d)) ==> r.is_some()
            && r.unwrap()@ == dict_contents(*d)[key@].0,
{
    d.get(key).map(|v| v.0.clone())
}

/// Relies on `DictIface::remove_key`: takes out the entry filed under the
/// key's hash, if there is one.
#[verifier::external_body]
fn dict_remove(d: &mut StuckDict, key: &str) -> (r: Option<(String, bool)>)
    ensures
        r.is_some() == hash_taken(dict_contents(*old(d)), key@),
        r.is_none() ==> dict_contents(*final(d)) == dict_contents(*old(d)),
        dict_contents(*old(d)).contains_key(key@) && hashes_unique(dict_contents(*old(d)))
            ==> dict_contents(*final(d)) == dict_contents(*old(d)).remove(key@),
{
    d.remove_key(key)
}

/// Relies on iterating a `Dict` (its entries, in hash order): every entry's
/// key and value, each key once.
#[verifier::external_body]
fn dict_entries(d: &StuckDict) -> (r: Vec<(String, String, bool)>)
    ensures
        forall|i: int| 0 <= i < r@.len() ==> dict_contents(*d).contains_key((#[trigger] r@[i]).0@)
            && dict_contents(*d)[r@[i].0@] == (r@[i].1@, r@[i].2),
        forall|k: Seq<char>| #[trigger] dict_contents(*d).contains_key(k) ==> exists|i: int|
            0 <= i < r@.len() && (#[trigger] r@[i]).0@ == k,
{
    d.iter().map(|e| (e.key.clone(), e.val.0.clone(), e.val.1)).collect()
}

/// The board built from `clients`, one after the other: a name is added
/// with its channel, not stuck, unless its hash is already taken.
pub open spec fn board_of(clients: Seq<ClientConfig>) -> Map<Seq<char>, (Seq<char>, bool)>
    decreases clients.len(),
{
    if clients.len() == 0 {
        no_entries()
    } else {
        let m = board_of(clients.drop_last());
        let c = clients.last();
        if hash_taken(m, c.name@) {
            m
        } else {
            m.insert(c.name@, (c.channel@, false))
        }
    }
}

proof fn lemma_board_keys_are_names(cs: Seq<ClientConfig>)
    ensures
        forall|k: Seq<char>| #[trigger] board_of(cs).contains_key(k) ==> exists|j: int|
            0 <= j < cs.len() && cs[j].name@ == k,
    decreases cs.len(),
{
    if cs.len() > 0 {
        let t = cs.drop_last();
        lemma_board_keys_are_names(t);
        assert forall|k: Seq<char>| #[trigger] board_of(cs).contains_key(k) implies exists|j: int|
            0 <= j < cs.len() && cs[j].name@ == k by {
            if board_of(t).contains_key(k) {
                let j = choose|j: int| 0 <= j < t.len() && t[j].name@ == k;
                assert(cs[j] == t[j]);
            } else {
                assert(cs[cs.len() - 1].name@ == k);
            }
        }
    }
}

proof fn lemma_board_grows(cs: Seq<ClientConfig>, n: int)
    requires
        0 <= n <= cs.len(),
    ensures
        forall|k: Seq<char>| #[trigger] board_of(cs.subrange(0, n)).contains_key(k) ==> board_of(cs).contains_key(k)
            && board_of(cs)[k] == board_of(cs.subrange(0, n))[k],
    decreases cs.len(),
{
    if n == cs.len() {
        assert(cs.subrange(0, n) =~= cs);
    } else {
        let t = cs.drop_last();
        assert(t.subrange(0, n) =~= cs.subrange(0, n));
        lemma_board_grows(t, n);
        let m = board_of(t);
        let c = cs.last();
        assert(cs.drop_last() == t);
        if m.contains_key(c.name@) {
            assert(m.contains_key(c.name@) && dict_key_hash(c.name@) == dict_key_hash(c.name@));
            assert(hash_taken(m, c.name@));
        }
        assert forall|k: Seq<char>| #[trigger] board_of(cs.subrange(0, n)).contains_key(k) implies board_of(
            cs,
        ).contains_key(k) && board_of(cs)[k] == board_of(cs.subrange(0, n))[k] by {
            assert(m.contains_key(k));
        }
    }
}

/// Every destination is on the board unless an earlier destination with
/// another name shares its name's hash (the dictionary refuses such a name);
/// its channel is that of the first destination with its name.
pub proof fn lemma_board_has_every_name(cs: Seq<ClientConfig>, i: int)
    requires
        0 <= i < cs.len(),
        forall|j: int| 0 <= j < i && cs[j].name@ != cs[i].name@ ==> dict_key_hash(cs[j].name@) != dict_key_hash(
            #[trigger] cs[i].name@,
        ),
    ensures
        board_of(cs).contains_key(cs[i].name@),
        exists|j: int|
            0 <= j <= i && cs[j].name@ == cs[i].name@ && (forall|l: int| 0 <= l < j ==> cs[l].name@ != cs[i].name@)
                && board_of(cs)[cs[i].name@] == (cs[j].channel@, false),
{
    let k = cs[i].name@;
    lemma_first_index(cs, k, i);
    let f = choose|j: int| 0 <= j <= i && cs[j].name@ == k && (forall|l: int| 0 <= l < j ==> cs[l].name@ != k);
    lemma_first_is_added(cs, i, f);
    let pre1 = cs.subrange(0, f + 1);
    lemma_board_grows(cs, f + 1);
    assert(board_of(pre1).contains_key(k));
    assert(board_of(cs)[k] == (cs[f].channel@, false));
}

proof fn lemma_first_is_added(cs: Seq<ClientConfig>, i: int, f: int)
    requires
        0 <= f <= i < cs.len(),
        cs[f].name@ == cs[i].name@,
        forall|l: int| 0 <= l < f ==> cs[l].name@ != cs[i].name@,
        forall|j: int| 0 <= j < i && cs[j].name@ != cs[i].name@ ==> dict_key_hash(cs[j].name@) != dict_key_hash(
            #[trigger] cs[i].name@,
        ),
    ensures
        board_of(cs.subrange(0, f + 1)).contains_key(cs[i].name@),
        board_of(cs.subrange(0, f + 1))[cs[i].name@] == (cs[f].channel@, false),
{
    let k = cs[i].name@;
    let pre = cs.subrange(0, f);
    let m = board_of(pre);
    lemma_board_keys_are_names(pre);
    assert(!hash_taken(m, k)) by {
        if hash_taken(m, k) {
            let a = choose|a: Seq<char>| m.contains_key(a) && dict_key_hash(a) == dict_key_hash(k);
            let j = choose|j: int| 0 <= j < pre.len() && pre[j].name@ == a;
            assert(cs[j] == pre[j]);
            assert(cs[j].name@ == a);
            if a == k {
                assert(cs[j].name@ == cs[i].name@);
            } else {
                assert(dict_key_hash(cs[j].name@) != dict_key_hash(cs[i].name@));
            }
        }
    }
    let pre1 = cs.subrange(0, f + 1);
    assert(pre1.drop_last() =~= pre);
    assert(pre1.last() == cs[f]);
}

proof fn lemma_first_index(cs: Seq<ClientConfig>, k: Seq<char>, i: int)
    requires
        0 <= i < cs.len(),
        cs[i].name@ == k,
    ensures
        exists|j: int| 0 <= j <= i && cs[j].name@ == k && (forall|l: int| 0 <= l < j ==> cs[l].name@ != k),
    decreases i,
{
    if exists|l: int| 0 <= l < i && cs[l].name@ == k {
        let l = choose|l: int| 0 <= l < i && cs[l].name@ == k;
        lemma_first_index(cs, k, l);
        let j = choose|j: int| 0 <= j <= l && cs[j].name@ == k && (forall|x: int| 0 <= x < j ==> cs[x].name@ != k);
        assert(0 <= j <= i);
    } else {
        assert(forall|l: int| 0 <= l < i ==> cs[l].name@ != k);
    }
}

/// The board after the report entries `s`, one after the other: a known
/// name takes the entry's flag and keeps its channel; others change nothing.
pub open spec fn reported(m: Map<Seq<char>, (Seq<char>, bool)>, s: Seq<(String, bool)>) -> Map<
    Seq<char>,
    (Seq<char>, bool),
>
    decreases s.len(),
{
    if s.len() == 0 {
        m
    } else {
        let before = reported(m, s.drop_last());
        let (n, b) = s.last();
        if before.contains_key(n@) {
            before.insert(n@, (before[n@].0, b))
        } else {
            before
        }
    }
}

/// The supervisor's view of the destinations: for each name, its channel and
/// whether a worker last reported it stuck.
pub struct StuckBoard {
    pub entries: StuckDict,
}

impl StuckBoard {
    pub open spec fn view(&self) -> Map<Seq<char>, (Seq<char>, bool)> {
        dict_contents(self.entries)
    }

    pub open spec fn wf(&self) -> bool {
        hashes_unique(self.view())
    }

    /// Every destination, by name, with its channel, none stuck. A name met
    /// twice keeps its first channel; a name whose hash another name already
    /// took is left out, as the dictionary refuses it.
    pub fn new(clients: &Vec<ClientConfig>) -> (r: StuckBoard)
        ensures
            r.wf(),
            r.view() == board_of(clients@),
    {
        let mut entries = dict_new();
        let mut i: usize = 0;
        assert(clients@.subrange(0, 0) =~= Seq::<ClientConfig>::empty());
        while i < clients.len()
            invariant
                0 <= i <= clients@.len(),
                hashes_unique(dict_contents(entries)),
                dict_contents(entries) == board_of(clients@.subrange(0, i as int)),
            decreases clients@.len() - i,
        {
            let c = &clients[i];
            let ghost before = dict_contents(entries);
            let added = dict_add(&mut entries, c.name.clone(), (c.channel.clone(), false));
            proof {
                let after = dict_contents(entries);
                if added {
                    assert forall|a: Seq<char>, b: Seq<char>|
                        after.contains_key(a) && after.contains_key(b) && a != b implies dict_key_hash(a)
                        != dict_key_hash(b) by {
                        if a == c.name@ {
                            assert(before.contains_key(b));
                        } else if b == c.name@ {
                            assert(before.contains_key(a));
                        }
                    }
                }
                let pre = clients@.subrange(0, i + 1);
                assert(pre.drop_last() =~= clients@.subrange(0, i as int));
                assert(pre.last() == clients@[i as int]);
            }
            i = i + 1;
        }
        assert(clients@.subrange(0, i as int) =~= clients@);
        StuckBoard { entries }
    }

    /// Records whether the named destination is stuck; its channel is kept.
    /// A name the board does not know changes nothing.
    pub fn set_stuck(&mut self, name: &String, stuck: bool)
        requires
            old(self).wf(),
        ensures
            final(self).wf(),
            old(self).view().contains_key(name@) ==> final(self).view() == old(self).view().insert(
                name@,
                (old(self).view()[name@].0, stuck),
            ),
            !old(self).view().contains_key(name@) ==> final(self).view() == old(self).view(),
    {
        if !self.knows(name) {
            return;
        }
        let ghost m0 = self.view();
        let channel = match dict_channel(&self.entries, name.as_str()) {
            Some(c) => c,
            None => {
                return;
            },
        };
        let _ = dict_remove(&mut self.entries, name.as_str());
        let ghost m1 = self.view();
        proof {
            assert(m1 == m0.remove(name@));
            assert(!hash_taken(m1, name@)) by {
                if hash_taken(m1, name@) {
                    let a = choose|a: Seq<char>| m1.contains_key(a) && dict_key_hash(a) == dict_key_hash(name@);
                    assert(m0.contains_key(a) && a != name@);
                }
            }
        }
        let added = dict_add(&mut self.entries, name.clone(), (channel, stuck));
        proof {
            let m2 = self.view();
            assert(m2 =~= m0.insert(name@, (m0[name@].0, stuck)));
            assert forall|a: Seq<char>, b: Seq<char>|
                m2.contains_key(a) && m2.contains_key(b) && a != b implies dict_key_hash(a) != dict_key_hash(b) by {
                if a != name@ && b != name@ {
                    assert(m0.contains_key(a) && m0.contains_key(b));
                } else if a == name@ {
                    assert(m0.contains_key(b));
                } else {
                    assert(m0.contains_key(a));
                }
            }
        }
    }

    /// Whether the board knows a destination of that name.
    pub fn knows(&self, name: &String) -> (r: bool)
        requires
            self.wf(),
        ensures
            r == self.view().contains_key(name@),
    {
        let all = dict_entries(&self.entries);
        let mut i: usize = 0;
        while i < all.len()
            invariant
                0 <= i <= all@.len(),
                forall|j: int| 0 <= j < i ==> (#[trigger] all@[j]).0@ != name@,
                forall|j: int| 0 <= j < all@.len() ==> dict_contents(self.entries).contains_key((#[trigger] all@[j]).0@),
                forall|k: Seq<char>| #[trigger] dict_contents(self.entries).contains_key(k) ==> exists|j: int|
                    0 <= j < all@.len() && (#[trigger] all@[j]).0@ == k,
            decreases all@.len() - i,
        {
            if all[i].0 == *name {
                return true;
            }
            i = i + 1;
        }
        proof {
            if self.view().contains_key(name@) {
                let j = choose|j: int| 0 <= j < all@.len() && (#[trigger] all@[j]).0@ == name@;
                assert(all@[j].0@ == name@);
            }
        }
        false
    }

    /// Takes in a worker's report of which destinations are stuck: each
    /// known name takes the flag of its last entry in the report.
    pub fn apply(&mut self, stats: &Statistics)
        requires
            old(self).wf(),
        ensures
            final(self).wf(),
            final(self).view() == reported(old(self).view(), stats.stuck@),
    {
        let ghost m0 = self.view();
        let mut i: usize = 0;
        assert(stats.stuck@.subrange(0, 0) =~= Seq::<(String, bool)>::empty());
        while i < stats.stuck.len()
            invariant
                0 <= i <= stats.stuck@.len(),
                self.wf(),
                self.view() == reported(m0, stats.stuck@.subrange(0, i as int)),
            decreases stats.stuck@.len() - i,
        {
            self.set_stuck(&stats.stuck[i].0, stats.stuck[i].1);
            proof {
                let pre = stats.stuck@.subrange(0, i + 1);
                assert(pre.drop_last() =~= stats.stuck@.subrange(0, i as int));
                assert(pre.last() == stats.stuck@[i as int]);
            }
            i = i + 1;
        }
        assert(stats.stuck@.subrange(0, i as int) =~= stats.stuck@);
    }

    /// The stuck destinations, each written `name:channel`.
    pub fn stuck_list(&self) -> (r: Vec<String>)
        ensures
            forall|i: int| 0 <= i < r@.len() ==> #[trigger] is_stuck_line(self.view(), r@[i]@),
            forall|k: Seq<char>| #[trigger] self.view().contains_key(k) && self.view()[k].1 ==> exists|i: int|
                0 <= i < r@.len() && r@[i]@ == line_of(k, self.view()[k].0),
    {
        let all = dict_entries(&self.entries);
        let mut r: Vec<String> = Vec::new();
        let ghost mut keys: Seq<Seq<char>> = Seq::empty();
        let mut i: usize = 0;
        while i < all.len()
            invariant
                0 <= i <= all@.len(),
                forall|j: int| 0 <= j < all@.len() ==> dict_contents(self.entries).contains_key((#[trigger] all@[j]).0@)
                    && dict_contents(self.entries)[all@[j].0@] == (all@[j].1@, all@[j].2),
                keys.len() == r@.len(),
                forall|m: int| 0 <= m < r@.len() ==> stuck_line(self.view(), #[trigger] keys[m], r@[m]@),
                forall|j: int| 0 <= j < i && (#[trigger] all@[j]).2 ==> keys.contains(all@[j].0@),
            decreases all@.len() - i,
        {
            let stuck = all[i].2;
            if stuck {
                let mut line = all[i].0.clone();
                line.append(":");
                line.append(all[i].1.as_str());
                let ghost k = all@[i as int].0@;
                proof {
                    assert(stuck_line(self.view(), k, line@));
                }
                r.push(line);
                proof {
                    let old_keys = keys;
                    keys = keys.push(k);
                    assert(keys[keys.len() - 1] == k);
                    assert forall|j: int| 0 <= j < i + 1 && (#[trigger] all@[j]).2 implies keys.contains(all@[j].0@) by {
                        if j < i {
                            let m = choose|m: int| 0 <= m < old_keys.len() && old_keys[m] == all@[j].0@;
                            assert(keys[m] == all@[j].0@);
                        } else {
                            assert(keys[keys.len() - 1] == all@[j].0@);
                        }
                    }
                }
            }
            i = i + 1;
        }
        proof {
            assert forall|m: int| 0 <= m < r@.len() implies #[trigger] is_stuck_line(self.view(), r@[m]@) by {
                assert(stuck_line(self.view(), keys[m], r@[m]@));
            }
            assert forall|k: Seq<char>| #[trigger] self.view().contains_key(k) && self.view()[k].1 implies exists|m: int|
                0 <= m < r@.len() && r@[m]@ == line_of(k, self.view()[k].0) by {
                let j = choose|j: int| 0 <= j < all@.len() && (#[trigger] all@[j]).0@ == k;
                assert(all@[j].2);
                let m = choose|m: int| 0 <= m < keys.len() && keys[m] == all@[j].0@;
                assert(stuck_line(self.view(), keys[m], r@[m]@));
            }
        }
        r
    }
}

/// `s` is the line of some stuck destination.
pub open spec fn is_stuck_line(m: Map<Seq<char>, (Seq<char>, bool)>, s: Seq<char>) -> bool {
    exists|k: Seq<char>| stuck_line(m, k, s)
}

/// How a stuck destination is written: `name:channel`.
pub open spec fn line_of(name: Seq<char>, channel: Seq<char>) -> Seq<char> {
    name + ":"@ + channel
}

/// `s` is the line of destination `k`, which is stuck.
pub open spec fn stuck_line(m: Map<Seq<char>, (Seq<char>, bool)>, k: Seq<char>, s: Seq<char>) -> bool {
    m.contains_key(k) && m[k].1 && s == line_of(k, m[k].0)
}

/// The supervisor's running totals since the last statistics line.
#[derive(Debug, Clone, Copy, PartialEq, Eq, Structural)]
pub struct Totals {
    pub incoming: u64,
    pub outgoing: u64,
    pub dropped: u64,
    pub deleted: u64,
}

pub open spec fn add_sat(x: u64, y: u64) -> u64 {
    if x + y <= u64::MAX {
        (x + y) as u64
    } else {
        u64::MAX
    }
}

fn add_saturating(x: u64, y: u64) -> (r: u64)
    ensures
        r == add_sat(x, y),
{
    if x <= u64::MAX - y {
        x + y
    } else {
        u64::MAX
    }
}

impl Totals {
    pub fn new() -> (r: Totals)
        ensures
            r == (Totals { incoming: 0, outgoing: 0, dropped: 0, deleted: 0 }),
    {
        Totals { incoming: 0, outgoing: 0, dropped: 0, deleted: 0 }
    }

    /// Adds a worker's report (saturating).
    pub fn absorb(&mut self, s: &Statistics)
        ensures
            final(self).incoming == add_sat(old(self).incoming, s.incoming),
            final(self).outgoing == add_sat(old(self).outgoing, s.outgoing),
            final(self).dropped == add_sat(old(self).dropped, s.dropped),
            final(self).deleted == add_sat(old(self).deleted, s.deleted),
    {
        self.incoming = add_saturating(self.incoming, s.incoming);
        self.outgoing = add_saturating(self.outgoing, s.outgoing);
        self.dropped = add_saturating(self.dropped, s.dropped);
        self.deleted = add_saturating(self.deleted, s.deleted);
    }
}

/// Seconds between two statistics lines.
pub const STATISTICS_SECONDS: u128 = 10;

/// Whether a statistics line is due: more than `STATISTICS_SECONDS` have
/// passed since the last one (times in milliseconds).
pub fn statistics_due(now_ms: u128, last_ms: u128) -> (r: bool)
    ensures
        r == (now_ms > last_ms + STATISTICS_SECONDS * 1000),
{
    now_ms > last_ms && now_ms - last_ms > STATISTICS_SECONDS * 1000
}

} // verus!
