//! Which of a device's addresses to use.
//!
//! All addresses are tried at once, but chosen by their order, which is their priority:
//! a direct path is much faster than one through an overlay, and the time that a
//! connection takes to be set up says little about that. Once something is connected,
//! better addresses get a moment to catch up, and no longer.
//!
//! Times are milliseconds; making the connections is the caller's.

use vstd::prelude::*;

verus! {

/// How many addresses are tried at most.
pub const DIAL_FANOUT: usize = 16;

/// How long better addresses may take once another one is connected.
pub const PRIORITY_GRACE_MS: u64 = 300;

/// How long an attempt may take.
pub const DIAL_TIMEOUT_MS: u64 = 3_000;

/// What is known of an attempt.
#[derive(Debug, Clone, Copy, PartialEq, Eq, Structural)]
pub enum Slot {
    /// It is still under way.
    Open,
    Failed,
    Connected,
}

/// The first attempt that succeeded, or the number of attempts.
pub open spec fn first_hit(slots: Seq<Slot>) -> nat
    decreases slots.len(),
{
    if slots.len() == 0 || slots[0] == Slot::Connected {
        0
    } else {
        1 + first_hit(slots.drop_first())
    }
}

/// Every attempt before `n` is over.
pub open spec fn settled(slots: Seq<Slot>, n: nat) -> bool {
    forall|i: int| 0 <= i < n && i < slots.len() ==> #[trigger] slots[i] != Slot::Open
}

proof fn lemma_first_hit(slots: Seq<Slot>, n: int)
    requires
        0 <= n <= slots.len(),
        forall|i: int| 0 <= i < n ==> #[trigger] slots[i] != Slot::Connected,
        n == slots.len() || slots[n] == Slot::Connected,
    ensures
        first_hit(slots) == n,
    decreases n,
{
    if n > 0 {
        assert(slots[0] != Slot::Connected);
        let t = slots.drop_first();
        assert forall|i: int| 0 <= i < n - 1 implies #[trigger] t[i] != Slot::Connected by {
            assert(slots[i + 1] != Slot::Connected);
        }
        lemma_first_hit(t, n - 1);
    }
}

proof fn lemma_first_hit_is(slots: Seq<Slot>)
    ensures
        first_hit(slots) <= slots.len(),
        forall|i: int| 0 <= i < first_hit(slots) ==> #[trigger] slots[i] != Slot::Connected,
        first_hit(slots) < slots.len() ==> slots[first_hit(slots) as int] == Slot::Connected,
    decreases slots.len(),
{
    if slots.len() > 0 && slots[0] != Slot::Connected {
        let t = slots.drop_first();
        lemma_first_hit_is(t);
        assert forall|i: int| 0 <= i < first_hit(slots) implies #[trigger] slots[i]
            != Slot::Connected by {
            if i > 0 {
                assert(t[i - 1] != Slot::Connected);
            }
        }
    }
}

/// The best attempt, once nothing better can come: the first that succeeded, with all
/// before it over.
pub fn settled_best(slots: &Vec<Slot>) -> (r: Option<usize>)
    ensures
        match r {
            Some(i) => {
                &&& i == first_hit(slots@)
                &&& i < slots@.len()
                &&& settled(slots@, i as nat)
            },
            None => first_hit(slots@) == slots@.len() || !settled(slots@, first_hit(slots@)),
        },
{
    let mut i: usize = 0;
    while i < slots.len()
        invariant
            i <= slots.len(),
            forall|k: int| 0 <= k < i ==> #[trigger] slots@[k] == Slot::Failed,
        decreases slots.len() - i,
    {
        match slots[i] {
            Slot::Open => {
                proof {
                    lemma_first_hit_is(slots@);
                    let f = first_hit(slots@) as int;
                    if f < slots@.len() {
                        if f <= i {
                            assert(slots@[f] == Slot::Connected);
                        }
                        assert(slots@[i as int] == Slot::Open);
                    }
                }
                return None;
            },
            Slot::Failed => {},
            Slot::Connected => {
                proof {
                    lemma_first_hit(slots@, i as int);
                }
                return Some(i);
            },
        }
        i += 1;
    }
    proof {
        lemma_first_hit(slots@, i as int);
    }
    None
}

/// A race between the addresses of one device.
pub struct Race {
    pub slots: Vec<Slot>,
    /// When the first connection was made.
    pub hit_at: Option<u64>,
    /// When the race ends at the latest.
    pub deadline: u64,
}

/// What a race calls for.
#[derive(Debug, Clone, Copy, PartialEq, Eq, Structural)]
pub enum Verdict {
    /// Use the connection of this attempt.
    Use(usize),
    /// Wait for a report, at most so long.
    Wait(u64),
    /// Nothing could be connected.
    GiveUp,
}

/// The time from `since` to `now`, none where the clock went backwards.
pub open spec fn passed(now: u64, since: u64) -> nat {
    if now >= since {
        (now - since) as nat
    } else {
        0
    }
}

/// What a race calls for: its best connection once nothing better can come, or once better
/// addresses had their moment, or once time is up; giving up where nothing is connected and
/// nothing can be any more; otherwise waiting, for as long as neither changes by itself.
pub open spec fn verdict(race: Race, now: u64) -> Verdict {
    let best = first_hit(race.slots@);
    let left = passed(race.deadline, now);
    if best < race.slots@.len() {
        let waited = passed(now, race.hit_at->0);
        if settled(race.slots@, best) || waited >= 300 || left == 0 {
            Verdict::Use(best as usize)
        } else if left < 300 - waited {
            Verdict::Wait(left as u64)
        } else {
            Verdict::Wait((300 - waited) as u64)
        }
    } else if settled(race.slots@, race.slots@.len()) || left == 0 {
        Verdict::GiveUp
    } else {
        Verdict::Wait(left as u64)
    }
}

impl Race {
    /// `hit_at` is set exactly when some attempt succeeded.
    pub open spec fn wf(&self) -> bool {
        (self.hit_at is Some) == (first_hit(self.slots@) < self.slots@.len())
    }

    /// A race of `count` attempts that starts now.
    pub fn start(count: usize, now: u64) -> (r: Race)
        requires
            now + 4_000 <= u64::MAX,
        ensures
            r.wf(),
            r.slots@ == Seq::new(count as nat, |i: int| Slot::Open),
            r.hit_at is None,
            r.deadline == now + 4_000,
    {
        let mut slots: Vec<Slot> = Vec::new();
        let mut i: usize = 0;
        while i < count
            invariant
                i <= count,
                slots@ == Seq::new(i as nat, |k: int| Slot::Open),
            decreases count - i,
        {
            slots.push(Slot::Open);
            i += 1;
            assert(slots@ =~= Seq::new(i as nat, |k: int| Slot::Open));
        }
        proof {
            lemma_first_hit(slots@, slots@.len() as int);
        }
        Race { slots, hit_at: None, deadline: now + DIAL_TIMEOUT_MS + 1_000 }
    }

    /// An attempt is over.
    pub fn report(&mut self, i: usize, connected: bool, now: u64)
        requires
            old(self).wf(),
            i < old(self).slots@.len(),
            old(self).slots@[i as int] == Slot::Open,
        ensures
            final(self).wf(),
            final(self).slots@ == old(self).slots@.update(
                i as int,
                if connected {
                    Slot::Connected
                } else {
                    Slot::Failed
                },
            ),
            final(self).hit_at == if connected && old(self).hit_at is None {
                Some(now)
            } else {
                old(self).hit_at
            },
            final(self).deadline == old(self).deadline,
    {
        let ghost before = self.slots@;
        self.slots.set(i, if connected {
            Slot::Connected
        } else {
            Slot::Failed
        });
        if connected && self.hit_at.is_none() {
            self.hit_at = Some(now);
        }
        proof {
            lemma_first_hit_is(before);
            lemma_first_hit_is(self.slots@);
            let (a, b) = (first_hit(before) as int, first_hit(self.slots@) as int);
            if connected {
                if b == self.slots@.len() {
                    assert(self.slots@[i as int] != Slot::Connected);
                }
            } else {
                if a < before.len() && b == before.len() {
                    assert(self.slots@[a] != Slot::Connected);
                }
                if b < before.len() && a == before.len() {
                    assert(before[b] != Slot::Connected);
                }
            }
        }
    }

    /// What the race calls for now.
    pub fn decide(&self, now: u64) -> (r: Verdict)
        requires
            self.wf(),
        ensures
            r == verdict(*self, now),
    {
        proof {
            lemma_first_hit_is(self.slots@);
        }
        let ghost best = first_hit(self.slots@);
        let mut left: u64 = self.deadline.saturating_sub(now);
        match self.hit_at {
            Some(since) => {
                if let Some(i) = settled_best(&self.slots) {
                    return Verdict::Use(i);
                }
                let waited: u64 = now.saturating_sub(since);
                if waited >= PRIORITY_GRACE_MS || left == 0 {
                    let mut i: usize = 0;
                    while i < self.slots.len() && self.slots[i] != Slot::Connected
                        invariant
                            best == first_hit(self.slots@),
                            i <= best < self.slots@.len(),
                            self.slots@[best as int] == Slot::Connected,
                            forall|k: int|
                                0 <= k < best ==> #[trigger] self.slots@[k] != Slot::Connected,
                        decreases self.slots@.len() - i,
                    {
                        i += 1;
                    }
                    return Verdict::Use(i);
                }
                let grace: u64 = PRIORITY_GRACE_MS - waited;
                if grace < left {
                    left = grace;
                }
                Verdict::Wait(left)
            },
            None => {
                if left == 0 || self.all_over() {
                    Verdict::GiveUp
                } else {
                    Verdict::Wait(left)
                }
            },
        }
    }

    fn all_over(&self) -> (r: bool)
        ensures
            r == settled(self.slots@, self.slots@.len()),
    {
        let mut i: usize = 0;
        while i < self.slots.len()
            invariant
                i <= self.slots.len(),
                forall|k: int| 0 <= k < i ==> #[trigger] self.slots@[k] != Slot::Open,
            decreases self.slots.len() - i,
        {
            if self.slots[i] == Slot::Open {
                return false;
            }
            i += 1;
        }
        true
    }

    /// Whether to give up after waiting in vain: where nothing is connected.
    pub fn gives_up(&self) -> (r: bool)
        ensures
            r == (self.hit_at is None),
    {
        self.hit_at.is_none()
    }

    /// No attempt is left that could report: those that never did have failed.
    pub fn all_gone(&mut self)
        requires
            old(self).wf(),
        ensures
            final(self).wf(),
            final(self).slots@ == old(self).slots@.map_values(|s: Slot| ended(s)),
            final(self).hit_at == old(self).hit_at,
            final(self).deadline == old(self).deadline,
    {
        let ghost before = self.slots@;
        let mut i: usize = 0;
        while i < self.slots.len()
            invariant
                i <= self.slots.len(),
                before == old(self).slots@,
                self.slots@.len() == before.len(),
                self.hit_at == old(self).hit_at,
                self.deadline == old(self).deadline,
                forall|k: int| 0 <= k < i ==> #[trigger] self.slots@[k] == ended(before[k]),
                forall|k: int| i <= k < before.len() ==> #[trigger] self.slots@[k] == before[k],
            decreases self.slots.len() - i,
        {
            if self.slots[i] == Slot::Open {
                self.slots.set(i, Slot::Failed);
            }
            i += 1;
        }
        assert(self.slots@ =~= before.map_values(|s: Slot| ended(s)));
        proof {
            lemma_ended(before);
        }
    }
}

/// What becomes of an attempt that can no longer report.
pub open spec fn ended(s: Slot) -> Slot {
    if s == Slot::Open {
        Slot::Failed
    } else {
        s
    }
}

proof fn lemma_ended(slots: Seq<Slot>)
    ensures
        first_hit(slots.map_values(|s: Slot| ended(s))) == first_hit(slots),
{
    let t = slots.map_values(|s: Slot| ended(s));
    lemma_first_hit_is(slots);
    let n = first_hit(slots) as int;
    assert forall|i: int| 0 <= i < n implies #[trigger] t[i] != Slot::Connected by {
        assert(slots[i] != Slot::Connected);
    }
    lemma_first_hit(t, n);
}

/// A race never settles for less than it has: what is used is connected, and no address
/// of higher priority is.
pub proof fn best_connection_wins(race: Race, i: int)
    requires
        race.wf(),
        first_hit(race.slots@) < race.slots@.len(),
        0 <= i < race.slots@.len(),
        race.slots@[i] == Slot::Connected,
    ensures
        first_hit(race.slots@) <= i,
        race.slots@[first_hit(race.slots@) as int] == Slot::Connected,
{
    lemma_first_hit_is(race.slots@);
}

/// A working connection is never thrown away: a race that gives up has none.
pub proof fn connections_are_not_thrown_away(race: Race, now: u64, i: int)
    requires
        race.wf(),
        verdict(race, now) is GiveUp,
        0 <= i < race.slots@.len(),
    ensures
        race.slots@[i] != Slot::Connected,
{
    lemma_first_hit_is(race.slots@);
}

/// Once no attempt is left that could report, the race is decided at once: for its best
/// connection, or, exactly where nothing is connected, for giving up.
pub proof fn a_race_without_attempts_is_decided(race: Race, gone: Race, now: u64)
    requires
        race.wf(),
        gone.slots@ == race.slots@.map_values(|s: Slot| ended(s)),
        gone.hit_at == race.hit_at,
        gone.deadline == race.deadline,
    ensures
        verdict(gone, now) == if first_hit(race.slots@) < race.slots@.len() {
            Verdict::Use(first_hit(race.slots@) as usize)
        } else {
            Verdict::GiveUp
        },
        verdict(gone, now) is GiveUp <==> forall|i: int|
            0 <= i < race.slots@.len() ==> #[trigger] race.slots@[i] != Slot::Connected,
{
    lemma_ended(race.slots@);
    lemma_first_hit_is(race.slots@);
    assert(settled(gone.slots@, first_hit(race.slots@)));
    assert(settled(gone.slots@, gone.slots@.len()));
}

/// How an attempt ends: when, and whether it is connected then.
pub struct Ending {
    pub at: u64,
    pub connected: bool,
}

/// A race that began at `start`, as it stands at `now`, where its attempts end as `ends`
/// says: each in time, and each reported once it is over.
pub open spec fn runs_as(race: Race, start: u64, ends: Seq<Ending>, now: u64) -> bool {
    &&& race.wf()
    &&& race.deadline == start + 4_000
    &&& race.slots@.len() == ends.len()
    &&& forall|i: int|
        0 <= i < ends.len() ==> {
            &&& (#[trigger] ends[i]).at <= start + 3_000
            &&& race.slots@[i] == if ends[i].at > now {
                Slot::Open
            } else if ends[i].connected {
                Slot::Connected
            } else {
                Slot::Failed
            }
        }
    &&& race.hit_at matches Some(t) ==> exists|i: int|
        0 <= i < ends.len() && (#[trigger] ends[i]).connected && ends[i].at == t
}

/// A race whose attempts all end in time gives up only where none of them connects, and
/// what it uses is connected. Every better address then fails, or still had not answered
/// when the moment that it was given after the first success was over.
pub proof fn the_best_of_all_attempts_is_found(
    race: Race,
    start: u64,
    ends: Seq<Ending>,
    now: u64,
    j: int,
)
    requires
        runs_as(race, start, ends, now),
        0 <= j < ends.len(),
    ensures
        verdict(race, now) is GiveUp ==> !ends[j].connected,
        verdict(race, now) matches Verdict::Use(i) ==> {
            &&& i < ends.len()
            &&& ends[i as int].connected
            &&& ends[i as int].at <= now
            &&& j < i ==> !ends[j].connected || ends[j].at > race.hit_at->0 + 300
        },
{
    lemma_first_hit_is(race.slots@);
    assert(ends[j].at <= start + 3_000);
    if verdict(race, now) is Use {
        let best = first_hit(race.slots@) as int;
        assert(race.slots.len() == race.slots@.len());
        assert(ends[best].at <= now);
        let t = race.hit_at->0;
        let w = choose|i: int|
            0 <= i < ends.len() && (#[trigger] ends[i]).connected && ends[i].at == t;
        assert(ends[w].at <= start + 3_000);
        if j < best {
            assert(race.slots@[j] != Slot::Connected);
        }
    }
}

/// The addresses of a device that are still to be tried.
#[derive(Debug, Clone, Copy, PartialEq, Eq, Structural)]
pub struct DialPlan {
    /// How many addresses take part.
    pub count: usize,
    /// The first address of the next race.
    pub skip: usize,
}

impl DialPlan {
    /// All addresses, as far as they take part.
    pub fn new(candidates: usize) -> (r: DialPlan)
        ensures
            r.skip == 0,
            r.count == if candidates < DIAL_FANOUT {
                candidates
            } else {
                DIAL_FANOUT
            },
    {
        DialPlan {
            count: if candidates < DIAL_FANOUT {
                candidates
            } else {
                DIAL_FANOUT
            },
            skip: 0,
        }
    }

    /// The winner of a race, the `i`th address that took part in it, turned out to be
    /// unusable: it and those before it are left out of the next race.
    pub fn winner_failed(&mut self, i: usize)
        requires
            old(self).skip + i < old(self).count,
        ensures
            final(self).skip == old(self).skip + i + 1,
            final(self).count == old(self).count,
            final(self).skip <= final(self).count,
    {
        self.skip = self.skip + i + 1;
    }
}

/// A race uses a connection exactly where it has one and nothing better can come, or the
/// moment for better addresses is over, or time is up. It gives up exactly where it has
/// none and none can come, or time is up.
pub proof fn a_race_is_decided_in_time(race: Race, now: u64, best: int)
    requires
        race.wf(),
        0 <= best <= race.slots@.len(),
        forall|i: int| 0 <= i < best ==> #[trigger] race.slots@[i] != Slot::Connected,
        best < race.slots@.len() ==> race.slots@[best] == Slot::Connected,
    ensures
        ({
            let over = now >= race.deadline || forall|i: int|
                0 <= i < best ==> #[trigger] race.slots@[i] != Slot::Open;
            &&& verdict(race, now) is Use <==> best < race.slots@.len() && (over || now
                >= race.hit_at->0 + 300)
            &&& verdict(race, now) matches Verdict::Use(i) ==> i == best
            &&& verdict(race, now) is GiveUp <==> best == race.slots@.len() && over
        }),
{
    lemma_first_hit(race.slots@, best);
    assert(race.slots.len() == race.slots@.len());
    let quiet = forall|i: int| 0 <= i < best ==> #[trigger] race.slots@[i] != Slot::Open;
    assert(settled(race.slots@, best as nat) == quiet);
}

/// A race waits exactly until it is decided by itself: nothing changes before, and what is
/// waited for has come then.
pub proof fn a_race_waits_no_longer_than_needed(race: Race, now: u64, wait: u64, early: u64)
    requires
        race.wf(),
        race.hit_at matches Some(t) ==> t <= now,
        verdict(race, now) == Verdict::Wait(wait),
        early < wait,
    ensures
        wait > 0,
        now + wait <= u64::MAX,
        !(verdict(race, (now + wait) as u64) is Wait),
        verdict(race, (now + early) as u64) is Wait,
{
    lemma_first_hit_is(race.slots@);
    assert(race.slots.len() == race.slots@.len());
}

} // verus!
