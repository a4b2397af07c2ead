//! Occurrence calendar: the earliest instant strictly after `now` matching
//! a recurring rule of weekdays, a time of day and a fixed zone offset.
//!
//! Instants are seconds on a continuous clock (the Unix epoch's second
//! count).  A rule names a set of weekdays, a second-of-day, and the zone's
//! offset east of that clock in seconds; it fires at every local instant
//! whose weekday is selected and whose second within the day is the rule's.
//! Weekdays are counted with Monday as zero; the epoch day was a Thursday.

use vstd::prelude::*;
use vstd::arithmetic::div_mod::lemma_fundamental_div_mod;
use vstd::arithmetic::div_mod::lemma_fundamental_div_mod_converse;
use vstd::arithmetic::div_mod::lemma_mod_bound;

verus! {

/// Seconds in a day.
pub const SECS_PER_DAY: u64 = 86400;

/// Days in a week.
pub const DAYS_PER_WEEK: u64 = 7;

/// Weekday index of the epoch day (1970-01-01, a Thursday; Monday is 0).
pub const EPOCH_WEEKDAY: u64 = 3;

/// Latest instant the calendar accepts, leaving room above it for a whole
/// week and the widest zone offset without overflow.
pub const MAX_TS: u64 = 0xffffffffffff;

/// The weekday of a day number (days since the epoch), Monday as zero.
pub open spec fn weekday_of_day(day: int) -> int {
    (day + 3) % 7
}

/// The day number a local instant falls in.
pub open spec fn day_of_local(local: int) -> int {
    local / 86400
}

/// The second of its day a local instant falls on.
pub open spec fn secs_of_local(local: int) -> int {
    local % 86400
}

/// `until` is the next occurrence of `rule` strictly after `now`: the rule
/// fires at `until` and at no instant between.
pub open spec fn next_occurrence_of(rule: Rule, now: int, until: int) -> bool {
    &&& until > now
    &&& rule.fires_at(until)
    &&& forall|t: int| now < t < until ==> !rule.fires_at(t)
}

/// A recurring rule: a set of weekdays, a time of day, and the zone offset
/// under which both are read.
#[derive(Clone, Copy, Debug)]
pub struct Rule {
    /// Which weekdays fire, indexed Monday-first.
    pub weekdays: [bool; 7],
    /// Second of the local day at which the rule fires.
    pub time_of_day: u64,
    /// Zone offset east of the clock, in seconds.
    pub offset: i64,
}

impl Rule {
    /// Whether weekday `wd` is selected.
    pub open spec fn day_selected(self, wd: int) -> bool {
        0 <= wd < 7 && self.weekdays[wd]
    }

    /// A well-formed rule: the time of day fits in a day, the offset in a
    /// day either way, and at least one weekday is selected.
    pub open spec fn wf(self) -> bool {
        &&& self.time_of_day < 86400
        &&& -86400 <= self.offset <= 86400
        &&& exists|wd: int| 0 <= wd < 7 && self.day_selected(wd)
    }

    /// Whether the rule fires at instant `t`: read under the zone offset,
    /// `t` falls on a selected weekday at exactly the rule's second of day.
    pub open spec fn fires_at(self, t: int) -> bool {
        let local = t + self.offset;
        &&& local >= 0
        &&& self.day_selected(weekday_of_day(day_of_local(local)))
        &&& secs_of_local(local) == self.time_of_day
    }

    /// Day `today + dd` cannot fire after `local_now` within its own day:
    /// either its weekday is not selected, or its firing second has passed.
    pub open spec fn day_done(self, today: int, dd: int, local_now: int) -> bool {
        self.day_selected(weekday_of_day(today + dd)) ==> (today + dd) * 86400
            + self.time_of_day <= local_now
    }

    /// Builds a rule, accepting exactly the well-formed combinations.
    pub fn new(weekdays: [bool; 7], time_of_day: u64, offset: i64) -> (r: Option<Rule>)
        ensures
            r is Some <==> (time_of_day < 86400 && -86400 <= offset <= 86400 && exists|wd: int|
                0 <= wd < 7 && weekdays[wd]),
            r matches Some(rule) ==> rule == (Rule { weekdays, time_of_day, offset }) && rule.wf(),
    {
        if time_of_day >= SECS_PER_DAY {
            return None;
        }
        if offset < -86400 || offset > 86400 {
            return None;
        }
        let mut any: bool = false;
        for i in 0..7usize
            invariant
                any <==> exists|wd: int| 0 <= wd < i && weekdays[wd],
        {
            if weekdays[i] {
                proof {
                    assert(weekdays[i as int]);
                }
                any = true;
            }
        }
        if any {
            let rule = Rule { weekdays, time_of_day, offset };
            proof {
                let wd = choose|wd: int| 0 <= wd < 7 && weekdays[wd];
                assert(rule.day_selected(wd));
            }
            Some(rule)
        } else {
            None
        }
    }

    /// Whether weekday `wd` is selected.
    pub fn day_selected_at(&self, wd: u64) -> (b: bool)
        requires
            wd < 7,
        ensures
            b == self.day_selected(wd as int),
    {
        self.weekdays[wd as usize]
    }

    /// The earliest instant strictly after `now` at which the rule fires.
    ///
    /// An instant equal to `now` counts as already past, so a rule firing
    /// right now yields the following occurrence, never `now` itself.
    pub fn next_occurrence(&self, now: u64) -> (r: u64)
        requires
            self.wf(),
            now + self.offset >= 0,
            now <= MAX_TS,
        ensures
            r > now,
            next_occurrence_of(*self, now as int, r as int),
    {
        let local_now: u64 = ((now as i128) + (self.offset as i128)) as u64;
        proof {
            assert(local_now == now + self.offset);
        }
        let today: u64 = local_now / SECS_PER_DAY;
        proof {
            lemma_fundamental_div_mod(local_now as int, 86400);
            lemma_mod_bound(local_now as int, 86400);
            assert(86400 * today <= local_now < 86400 * (today + 1));
        }
        for d in 0..8u64
            invariant
                self.wf(),
                local_now == now + self.offset,
                now <= MAX_TS,
                today == day_of_local(local_now as int),
                86400 * today <= local_now < 86400 * (today + 1),
                forall|dd: int| 0 <= dd < d ==> self.day_done(today as int, dd, local_now as int),
        {
            let day: u64 = today + d;
            let wd: u64 = (day + EPOCH_WEEKDAY) % DAYS_PER_WEEK;
            proof {
                lemma_mod_bound(day as int + 3, 7);
                assert(wd == weekday_of_day(day as int));
            }
            if self.day_selected_at(wd) {
                let cand: u64 = day * SECS_PER_DAY + self.time_of_day;
                if cand > local_now {
                    let r: u64 = ((cand as i128) - (self.offset as i128)) as u64;
                    proof {
                        assert(r == cand - self.offset);
                        lemma_fundamental_div_mod_converse(
                            cand as int,
                            86400,
                            day as int,
                            self.time_of_day as int,
                        );
                        assert(self.fires_at(r as int));
                        assert forall|t: int| now < t < r implies !self.fires_at(t) by {
                            if self.fires_at(t) {
                                let lt = t + self.offset;
                                assert(local_now < lt < cand);
                                let q = day_of_local(lt);
                                lemma_fundamental_div_mod(lt, 86400);
                                assert(lt == 86400 * q + self.time_of_day);
                                assert(q >= today);
                                assert(q < day);
                                assert(self.day_selected(weekday_of_day(q)));
                                assert(self.day_done(today as int, q - today, local_now as int));
                                assert(lt <= local_now);
                            }
                        }
                    }
                    return r;
                }
                proof {
                    assert forall|dd: int| 0 <= dd < d + 1 implies self.day_done(
                        today as int,
                        dd,
                        local_now as int,
                    ) by {
                        if dd == d {
                            assert((today + dd) * 86400 + self.time_of_day == cand);
                        }
                    }
                }
            } else {
                proof {
                    assert forall|dd: int| 0 <= dd < d + 1 implies self.day_done(
                        today as int,
                        dd,
                        local_now as int,
                    ) by {
                        if dd == d {
                            assert(!self.day_selected(weekday_of_day(today + dd)));
                        }
                    }
                }
            }
        }
        proof {
            let wd0 = choose|wd: int| 0 <= wd < 7 && self.day_selected(wd);
            let base = weekday_of_day(today as int);
            lemma_mod_bound(today as int + 3, 7);
            let qb = (today as int + 3) / 7;
            lemma_fundamental_div_mod(today as int + 3, 7);
            let diff: int = if wd0 > base {
                wd0 - base
            } else {
                wd0 - base + 7
            };
            assert(1 <= diff <= 7);
            if wd0 > base {
                lemma_fundamental_div_mod_converse(today as int + diff + 3, 7, qb, wd0);
            } else {
                lemma_fundamental_div_mod_converse(today as int + diff + 3, 7, qb + 1, wd0);
            }
            assert(weekday_of_day(today as int + diff) == wd0);
            assert(self.day_done(today as int, diff, local_now as int));
            assert((today + diff) * 86400 + self.time_of_day > local_now);
            assert(!self.day_selected(weekday_of_day(today + diff)));
            assert(false);
        }
        unreached()
    }
}

} // verus!
