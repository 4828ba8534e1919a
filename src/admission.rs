use vstd::prelude::*;

verus! {

/// Seconds between length checks when a destination has no limits.
pub const DEFAULT_CHECK_SECONDS: u64 = 1;

/// The end index handed to the list trim: the trim keeps at most this many items.
pub const MAX_QUEUE_SIZE: isize = 100000000;

/// Whether a destination's length is due for a check at second `now`: with no
/// limits, once a second; otherwise when `timelimit` seconds have passed
/// since the last check, or when the packet countdown has run out.
pub open spec fn check_due(timelimit: Option<u64>, checklimit: Option<u64>, packages: u64, lastcheck: u64, now: u64) -> bool {
    if timelimit.is_none() && checklimit.is_none() {
        now - lastcheck >= DEFAULT_CHECK_SECONDS
    } else {
        (timelimit.is_some() && now - lastcheck >= timelimit.unwrap())
            || (checklimit.is_some() && packages == 0)
    }
}

/// Decides whether a destination's length is due for a check at second `now`.
pub fn can_check_queue(timelimit: Option<u64>, checklimit: Option<u64>, packages: u64, lastcheck: u64, now: u64) -> (r: bool)
    ensures
        r == check_due(timelimit, checklimit, packages, lastcheck, now),
{
    if timelimit.is_none() && checklimit.is_none() {
        return now >= lastcheck && now - lastcheck >= DEFAULT_CHECK_SECONDS;
    }
    match timelimit {
        Some(t) => {
            if now >= lastcheck && now - lastcheck >= t {
                return true;
            }
        },
        None => {},
    }
    match checklimit {
        Some(_) => packages == 0,
        None => false,
    }
}

/// The first step of an admission decision.
#[derive(Debug, Clone, Copy, PartialEq, Eq, Structural)]
pub enum AdmissionStep {
    /// Decided without a check: `true` admits.
    Decided(bool),
    /// The destination's length must be read, then handed to `on_length`.
    Probe,
}

/// What a length reading leads to.
#[derive(Debug, Clone, Copy, PartialEq, Eq, Structural)]
pub enum LengthVerdict {
    /// Decided: `true` admits.
    Admit(bool),
    /// Trim the first `block` items of the list (`removed` of them exist),
    /// then read the length again and hand it to `on_length`.
    Trim { block: u64, removed: u64 },
}

/// The admission state of one destination: its limits, the packet countdown,
/// the second of its last length check, and since when it is stuck, if it is.
#[derive(Debug, Clone, Copy, PartialEq, Eq, Structural)]
pub struct Admission {
    pub timelimit: Option<u64>,
    pub checklimit: Option<u64>,
    pub softlimit: Option<u64>,
    pub hardlimit: Option<u64>,
    pub deleteblock: Option<u64>,
    pub packages: u64,
    pub lastcheck: u64,
    pub stuck_since: Option<u64>,
}

impl Admission {
    /// The watermarks apply when both are set and positive.
    pub open spec fn watermarks(&self) -> bool {
        self.softlimit.is_some() && self.softlimit.unwrap() > 0 && self.hardlimit.is_some()
            && self.hardlimit.unwrap() > 0
    }

    /// A positive trim block, if one is set.
    pub open spec fn trim_block(&self) -> Option<u64> {
        match self.deleteblock {
            Some(b) => if b > 0 { Some(b) } else { None },
            None => None,
        }
    }

    pub open spec fn is_stuck(&self) -> bool {
        self.stuck_since.is_some()
    }

    /// The state after `begin` at second `now`.
    pub open spec fn after_begin(self, now: u64) -> Admission {
        if check_due(self.timelimit, self.checklimit, self.packages, self.lastcheck, now) {
            Admission {
                lastcheck: now,
                packages: match self.checklimit {
                    Some(v) => v,
                    None => 0,
                },
                ..self
            }
        } else {
            Admission { packages: if self.packages > 0 { (self.packages - 1) as u64 } else { 0 }, ..self }
        }
    }

    /// What `begin` answers at second `now`.
    pub open spec fn begin_step(self, now: u64) -> AdmissionStep {
        if check_due(self.timelimit, self.checklimit, self.packages, self.lastcheck, now) {
            AdmissionStep::Probe
        } else {
            AdmissionStep::Decided(!self.is_stuck())
        }
    }

    /// What a length reading `len` at second `now` leads to.
    pub open spec fn length_verdict(self, len: u64) -> LengthVerdict {
        if !self.watermarks() {
            LengthVerdict::Admit(!self.is_stuck())
        } else if !self.is_stuck() {
            if len >= self.hardlimit.unwrap() {
                match self.trim_block() {
                    Some(b) => LengthVerdict::Trim { block: b, removed: if b < len { b } else { len } },
                    None => LengthVerdict::Admit(false),
                }
            } else {
                LengthVerdict::Admit(true)
            }
        } else {
            LengthVerdict::Admit(len < self.softlimit.unwrap())
        }
    }

    /// The state after a length reading `len` at second `now`: a healthy
    /// destination at or over the hard watermark without a trim block becomes
    /// stuck; a stuck one under the soft watermark becomes healthy.
    pub open spec fn after_length(self, len: u64, now: u64) -> Admission {
        if !self.watermarks() {
            self
        } else if !self.is_stuck() {
            if len >= self.hardlimit.unwrap() && self.trim_block().is_none() {
                Admission { stuck_since: Some(now), ..self }
            } else {
                self
            }
        } else if len < self.softlimit.unwrap() {
            Admission { stuck_since: None, ..self }
        } else {
            self
        }
    }

    /// A healthy destination that has never been checked.
    pub fn new(
        timelimit: Option<u64>,
        checklimit: Option<u64>,
        softlimit: Option<u64>,
        hardlimit: Option<u64>,
        deleteblock: Option<u64>,
    ) -> (r: Admission)
        ensures
            r == (Admission {
                timelimit,
                checklimit,
                softlimit,
                hardlimit,
                deleteblock,
                packages: 0,
                lastcheck: 0,
                stuck_since: None,
            }),
    {
        Admission {
            timelimit,
            checklimit,
            softlimit,
            hardlimit,
            deleteblock,
            packages: 0,
            lastcheck: 0,
            stuck_since: None,
        }
    }

    /// Starts an admission decision at second `now`. When a check is due, the
    /// check time and the packet countdown are reset and the length must be
    /// read; otherwise the countdown goes down by one and the current state
    /// decides. The stuck state never changes here.
    pub fn begin(&mut self, now: u64) -> (r: AdmissionStep)
        ensures
            *final(self) == old(self).after_begin(now),
            r == old(self).begin_step(now),
            final(self).stuck_since == old(self).stuck_since,
    {
        if can_check_queue(self.timelimit, self.checklimit, self.packages, self.lastcheck, now) {
            self.lastcheck = now;
            self.packages = match self.checklimit {
                Some(v) => v,
                None => 0,
            };
            AdmissionStep::Probe
        } else {
            if self.packages > 0 {
                self.packages = self.packages - 1;
            }
            AdmissionStep::Decided(self.stuck_since.is_none())
        }
    }

    /// Takes a length reading at second `now`.
    pub fn on_length(&mut self, len: u64, now: u64) -> (r: LengthVerdict)
        ensures
            *final(self) == old(self).after_length(len, now),
            r == old(self).length_verdict(len),
            old(self).is_stuck() ==> (final(self).is_stuck() <==> !(old(self).watermarks()
                && len < old(self).softlimit.unwrap())),
            old(self).trim_block().is_some() && !old(self).is_stuck() ==> !final(self).is_stuck(),
            r matches LengthVerdict::Trim { block, removed } ==> block > 0 && 0 < removed <= len
                && removed <= block,
    {
        let active = match (self.softlimit, self.hardlimit) {
            (Some(s), Some(h)) => s > 0 && h > 0,
            _ => false,
        };
        if !active {
            return LengthVerdict::Admit(self.stuck_since.is_none());
        }
        let soft = match self.softlimit {
            Some(s) => s,
            None => 0,
        };
        let hard = match self.hardlimit {
            Some(h) => h,
            None => 0,
        };
        match self.stuck_since {
            None => {
                if len >= hard {
                    match self.deleteblock {
                        Some(b) => if b > 0 {
                            return LengthVerdict::Trim { block: b, removed: if b < len { b } else { len } };
                        },
                        None => {},
                    }
                    self.stuck_since = Some(now);
                    LengthVerdict::Admit(false)
                } else {
                    LengthVerdict::Admit(true)
                }
            },
            Some(_) => {
                if len < soft {
                    self.stuck_since = None;
                    LengthVerdict::Admit(true)
                } else {
                    LengthVerdict::Admit(false)
                }
            },
        }
    }
}

/// A stuck destination stays stuck through every decision that reads no
/// length, and becomes healthy at the first length check that sees fewer
/// items than the soft watermark, not before.
pub proof fn lemma_stuck_until_under_soft(a: Admission, now: u64, len: u64)
    requires
        a.is_stuck(),
        a.watermarks(),
    ensures
        a.after_begin(now).is_stuck(),
        a.begin_step(now) != AdmissionStep::Decided(true),
        a.after_length(len, now).is_stuck() <==> len >= a.softlimit.unwrap(),
        a.length_verdict(len) == LengthVerdict::Admit(len < a.softlimit.unwrap()),
{
}

/// The number of trims that one length check runs into, starting from
/// length `len` with no other writer: each trim removes a block, or what is
/// left, and the length is read again.
pub open spec fn trim_rounds(a: Admission, len: u64) -> nat
    decreases len,
{
    match a.length_verdict(len) {
        LengthVerdict::Trim { block, removed } => if 0 < removed <= len {
            1 + trim_rounds(a, (len - removed) as u64)
        } else {
            0
        },
        LengthVerdict::Admit(_) => 0,
    }
}

/// The number of items that those trims remove.
pub open spec fn trim_removed(a: Admission, len: u64) -> nat
    decreases len,
{
    match a.length_verdict(len) {
        LengthVerdict::Trim { block, removed } => if 0 < removed <= len {
            removed as nat + trim_removed(a, (len - removed) as u64)
        } else {
            0
        },
        LengthVerdict::Admit(_) => 0,
    }
}

/// With a trim block, a healthy destination never becomes stuck: a length
/// check that sees `len` at or over the hard watermark trims exactly
/// ceil((len - (hard - 1)) / block) blocks from the head, leaves fewer than
/// `hard` items, removes `trim_removed` items in all, and then admits.
pub proof fn lemma_trim_block_never_sticks(a: Admission, len: u64, now: u64)
    requires
        a.watermarks(),
        a.trim_block().is_some(),
        !a.is_stuck(),
        len >= a.hardlimit.unwrap(),
    ensures
        !a.after_length(len, now).is_stuck(),
        trim_rounds(a, len) == (len - a.hardlimit.unwrap() + a.trim_block().unwrap()) / (
        a.trim_block().unwrap() as int),
        trim_removed(a, len) <= len,
        len - trim_removed(a, len) < a.hardlimit.unwrap(),
        trim_removed(a, len) == if trim_rounds(a, len) * a.trim_block().unwrap() <= len {
            trim_rounds(a, len) * a.trim_block().unwrap()
        } else {
            len as int
        },
    decreases len,
{
    let h = a.hardlimit.unwrap() as int;
    let b = a.trim_block().unwrap() as int;
    let removed = if b < len { b } else { len as int };
    let next = (len - removed) as u64;
    assert(a.length_verdict(len) == LengthVerdict::Trim { block: b as u64, removed: removed as u64 });
    if next >= h {
        lemma_trim_block_never_sticks(a, next, now);
        assert(removed == b);
        assert((len - h + b) / b == (len - h) / b + 1) by (nonlinear_arith)
            requires
                b > 0,
                len - h >= 0,
        {
            assert(len - h + b == (len - h) + b * 1);
        }
        assert((next - h + b) / b == (len - h) / b);
        let k1 = trim_rounds(a, next) as int;
        assert(trim_rounds(a, len) == k1 + 1);
        assert((k1 + 1) * b == k1 * b + b) by (nonlinear_arith);
    } else {
        assert(trim_rounds(a, next) == 0);
        assert(trim_removed(a, next) == 0);
        assert(0 <= len - h < b);
        assert(trim_rounds(a, len) == 1);
        assert(1 * b == b);
        assert((len - h + b) / b == 1) by (nonlinear_arith)
            requires
                b > 0,
                0 <= len - h < b,
        ;
    }
}

} // verus!
