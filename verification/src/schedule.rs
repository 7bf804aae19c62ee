use vstd::prelude::*;

use crate::merge::MergedIterator;
use crate::merge::first_min_index;
use crate::pattern::Iter;
use crate::pattern::UnitSchedule;
use crate::stamp::MAX_DAY;
use crate::stamp::Stamp;

verus! {

/// Highest UTC second the event source works with; far below what the
/// calendar facilities accept, far above any real clock reading.
pub const MAX_SECS: i64 = 4_500_000_000_000;

/// How a naive local timestamp maps into a timezone: to one instant, to two
/// instants across a backward clock shift, or to none across a forward one.
/// Instants are UTC seconds counted from day 0 at midnight.
#[derive(Clone, Copy, Debug, PartialEq, Eq, Structural)]
pub enum LocalKind {
    Unique(i64),
    Ambiguous(i64, i64),
    Gap,
}

/// The resolution policy: an unambiguous local time stands, an ambiguous one
/// resolves to the later of its two instants, and one that does not exist is
/// discarded.
pub fn pick_instant(k: &LocalKind) -> (r: Option<i64>)
    ensures
        r == (match *k {
            LocalKind::Unique(t) => Some(t),
            LocalKind::Ambiguous(_, later) => Some(later),
            LocalKind::Gap => None::<i64>,
        }),
{
    match *k {
        LocalKind::Unique(t) => Some(t),
        LocalKind::Ambiguous(_, later) => Some(later),
        LocalKind::Gap => None,
    }
}

/// The UTC instant of a naive local timestamp with ordering key `key` under
/// a fixed offset of `offset_secs`.
pub open spec fn instant_of(key: int, offset_secs: int) -> int {
    key * 60 - offset_secs
}

/// Relies on chrono: `FixedOffset::east_opt` builds the offset,
/// `DateTime::from_timestamp` turns seconds into the naive local time, and
/// `TimeZone::from_local_datetime` on a fixed offset maps every local time
/// to the single instant `local seconds - offset seconds`, read back with
/// `DateTime::timestamp`.
#[verifier::external_body]
fn resolve_local(offset_secs: i32, local_secs: i64) -> (r: LocalKind)
    requires
        -86400 < offset_secs < 86400,
        0 <= local_secs <= MAX_SECS,
    ensures
        r == LocalKind::Unique((local_secs - offset_secs as int) as i64),
{
    let off = chrono::FixedOffset::east_opt(offset_secs).unwrap();
    let naive = chrono::DateTime::from_timestamp(local_secs, 0).unwrap().naive_utc();
    match chrono::TimeZone::from_local_datetime(&off, &naive) {
        chrono::LocalResult::Single(dt) => LocalKind::Unique(dt.timestamp()),
        chrono::LocalResult::Ambiguous(a, b) => LocalKind::Ambiguous(a.timestamp(), b.timestamp()),
        chrono::LocalResult::None => LocalKind::Gap,
    }
}

/// What one poll of the event source reports.
#[derive(Clone, Copy, Debug, PartialEq, Eq, Structural)]
pub enum PollStep {
    /// No occurrence is due yet. `arm_for` holds the seconds until the
    /// cached next fire when a timer should be armed now, and nothing when
    /// one is already armed.
    Pending { arm_for: Option<u64> },
    /// The cached occurrence had already elapsed: report one fired signal
    /// and arm a fresh timer, `arm_for` seconds away from now.
    Fired { arm_for: u64 },
    /// The far end of the representable range was reached.
    Horizon,
}

/// The timer-driven event source: the merged occurrence stream bound to a
/// fixed-offset timezone, with a cached next-fire instant. The armed-timer
/// flag lives with the caller, which alone runs timers.
pub struct Schedule {
    pub upcoming: MergedIterator,
    pub next_fire: Option<i64>,
    pub offset_secs: i32,
}

impl Schedule {
    /// Validity: a non-empty valid merge, a sane offset, and any cached
    /// instant within the working range.
    pub open spec fn wf(self) -> bool {
        &&& self.upcoming.wf()
        &&& self.upcoming.sources@.len() > 0
        &&& -86400 < self.offset_secs < 86400
        &&& (self.next_fire matches Some(t) ==> -86400 < t <= MAX_SECS)
    }

    /// Source `i` of the merge was seeded from pattern `u`'s occurrence
    /// iterator primed strictly after `now`: the pending value is that
    /// iterator's first emission and the source is the iterator one step on.
    pub open spec fn seeded_at(self, u: UnitSchedule, now: Stamp, i: int) -> bool {
        exists|it: Iter|
            u.primed_for(now, it) && (#[trigger] it.spec_step()) == self.upcoming.sources@[i]
                && self.upcoming.pending@[i] == it.peek()
    }

    /// Bind an ordered collection of patterns to a timezone offset, with all
    /// per-pattern occurrence sequences primed strictly after `now`: source
    /// `i` of the merge is pattern `i`'s primed iterator, already advanced
    /// past its seeded pending value, which is that pattern's first
    /// occurrence after `now`. Fails exactly when no pattern is supplied.
    pub fn new(units: &Vec<UnitSchedule>, offset_secs: i32, now: &Stamp) -> (r: Option<Schedule>)
        requires
            forall|i: int| 0 <= i < units@.len() ==> (#[trigger] units@[i]).wf(),
            now.wf(),
            now.day + 14 <= MAX_DAY,
            -86400 < offset_secs < 86400,
        ensures
            r is Some <==> units@.len() > 0,
            r is Some ==> r.unwrap().wf() && r.unwrap().next_fire is None
                && r.unwrap().offset_secs == offset_secs
                && r.unwrap().upcoming.sources@.len() == units@.len()
                && r.unwrap().upcoming.hist@ == Seq::<int>::empty(),
            r is Some ==> forall|i: int|
                0 <= i < units@.len() ==> r.unwrap().seeded_at(#[trigger] units@[i], *now, i),
    {
        if units.len() == 0 {
            return None;
        }
        let mut iters: Vec<Iter> = Vec::new();
        let mut i: usize = 0;
        while i < units.len()
            invariant
                i <= units@.len(),
                iters@.len() == i,
                forall|k: int| 0 <= k < units@.len() ==> (#[trigger] units@[k]).wf(),
                now.wf(),
                now.day + 14 <= MAX_DAY,
                forall|k: int|
                    0 <= k < i ==> (#[trigger] iters@[k]).wf() && units@[k].primed_for(
                        *now,
                        iters@[k],
                    ) && iters@[k].date + 7 <= MAX_DAY,
            decreases units@.len() - i,
        {
            let it = units[i].iter_since(now);
            iters.push(it);
            i = i + 1;
        }
        let ghost seeds = iters@;
        match MergedIterator::new(iters) {
            Some(m) => {
                let out = Some(Schedule { upcoming: m, next_fire: None, offset_secs });
                proof {
                    assert forall|k: int| 0 <= k < units@.len() implies out.unwrap().seeded_at(
                        #[trigger] units@[k],
                        *now,
                        k,
                    ) by {
                        let it = seeds[k];
                        assert(units@[k].primed_for(*now, it));
                        assert(out.unwrap().upcoming.sources@[k] == it.spec_step());
                        assert(out.unwrap().upcoming.pending@[k] == it.peek());
                    }
                }
                out
            },
            None => {
                proof {
                    assert(false);
                }
                vstd::pervasive::unreached()
            },
        }
    }

    /// Pull the merged stream past `now_utc`: resolve each candidate into the
    /// timezone, skip any that does not exist or has already passed, cache
    /// and return the first instant strictly after `now_utc`. Returns nothing
    /// only at the far end of the representable range. Every candidate
    /// skipped on the way had already passed; the result is the first
    /// qualifying occurrence of the stream.
    pub fn next(&mut self, now_utc: i64) -> (r: Option<i64>)
        requires
            old(self).wf(),
            -86400 < now_utc <= MAX_SECS,
        ensures
            final(self).wf(),
            final(self).offset_secs == old(self).offset_secs,
            final(self).upcoming.hist@.len() >= old(self).upcoming.hist@.len(),
            final(self).upcoming.hist@.subrange(0, old(self).upcoming.hist@.len() as int) == old(
                self,
            ).upcoming.hist@,
            r matches Some(t) ==> {
                &&& t > now_utc
                &&& final(self).next_fire == Some(t)
                &&& final(self).upcoming.hist@.len() > old(self).upcoming.hist@.len()
                &&& t == instant_of(final(self).upcoming.hist@.last(), old(self).offset_secs as int)
                &&& forall|k: int|
                    old(self).upcoming.hist@.len() <= k < final(self).upcoming.hist@.len() - 1
                        ==> instant_of(#[trigger] final(self).upcoming.hist@[k], old(self).offset_secs as int)
                        <= now_utc
            },
            r is None ==> final(self).next_fire == old(self).next_fire,
            r is None ==> exists|i: int|
                0 <= i < final(self).upcoming.sources@.len()
                    && (#[trigger] final(self).upcoming.sources@[i]).date + 7 > MAX_DAY,
    {
        let ghost h0 = self.upcoming.hist@;
        let ghost bound = (now_utc + self.offset_secs) as int / 60;
        loop
            invariant
                self.wf(),
                self.offset_secs == old(self).offset_secs,
                self.next_fire == old(self).next_fire,
                -86400 < now_utc <= MAX_SECS,
                h0 == old(self).upcoming.hist@,
                self.upcoming.hist@.len() >= h0.len(),
                self.upcoming.hist@.subrange(0, h0.len() as int) == h0,
                bound == (now_utc + self.offset_secs) as int / 60,
                forall|k: int|
                    h0.len() <= k < self.upcoming.hist@.len() ==> instant_of(
                        #[trigger] self.upcoming.hist@[k],
                        self.offset_secs as int,
                    ) <= now_utc,
            decreases crate::merge::potential(self.upcoming.pending@, bound),
        {
            let ghost pre = *self;
            let st = match self.upcoming.next() {
                Some(st) => st,
                None => {
                    proof {
                        crate::merge::lemma_first_min(pre.upcoming.pending@);
                        let i = first_min_index(pre.upcoming.pending@);
                        assert(self.upcoming.sources@[i].date + 7 > MAX_DAY);
                    }
                    return None;
                },
            };
            proof {
                crate::merge::lemma_first_min(pre.upcoming.pending@);
                assert(self.upcoming.hist@.subrange(0, h0.len() as int) =~= h0);
            }
            let secs = st.to_secs();
            let inst = match pick_instant(&resolve_local(self.offset_secs, secs)) {
                Some(t) => t,
                None => {
                    proof {
                        assert(false);
                    }
                    vstd::pervasive::unreached()
                },
            };
            proof {
                assert(st.key_secs() == st.key() * 60);
                assert(inst == instant_of(st.key(), self.offset_secs as int));
            }
            if inst > now_utc {
                proof {
                    assert(st.key() <= MAX_DAY * 1440 + 1439);
                    assert(inst <= MAX_SECS);
                }
                self.next_fire = Some(inst);
                return Some(inst);
            }
            proof {
                let i = first_min_index(pre.upcoming.pending@);
                vstd::arithmetic::div_mod::lemma_fundamental_div_mod(
                    now_utc + self.offset_secs,
                    60,
                );
                vstd::arithmetic::div_mod::lemma_mod_bound(now_utc + self.offset_secs, 60);
                assert(st.key() <= bound);
                let refill = pre.upcoming.sources@[i].peek();
                assert(st == pre.upcoming.pending@[i]);
                assert(refill.key() > st.key());
                assert(self.upcoming.pending@ == pre.upcoming.pending@.update(i, refill));
                crate::merge::lemma_potential_update(pre.upcoming.pending@, i, refill, bound);
                crate::merge::lemma_potential_nonneg(self.upcoming.pending@, bound);
                assert(crate::merge::potential(self.upcoming.pending@, bound)
                    < crate::merge::potential(pre.upcoming.pending@, bound));
            }
        }
    }

    /// One poll, driven by the consumer at wall-clock second `now_utc` with
    /// `timer_armed` telling whether its wake-up timer is still outstanding.
    /// Reports a fired signal only for a cached occurrence that has already
    /// elapsed, and after it always caches a strictly later one, so no
    /// occurrence is ever reported twice and none before its instant passes.
    /// A timer is armed only when none is outstanding.
    pub fn poll(&mut self, now_utc: i64, timer_armed: bool) -> (r: PollStep)
        requires
            old(self).wf(),
            0 <= now_utc <= MAX_SECS,
        ensures
            final(self).wf(),
            r matches PollStep::Pending { arm_for } ==> {
                &&& final(self).next_fire matches Some(t) && t > now_utc && (arm_for == (
                    if timer_armed {
                        None::<u64>
                    } else {
                        Some((t - now_utc) as u64)
                    }))
            },
            r matches PollStep::Fired { arm_for } ==> {
                &&& old(self).next_fire matches Some(t0) && t0 <= now_utc
                &&& final(self).next_fire matches Some(t2) && t2 > now_utc && arm_for == (t2
                    - now_utc) as u64
            },
            r is Horizon ==> exists|i: int|
                0 <= i < final(self).upcoming.sources@.len()
                    && (#[trigger] final(self).upcoming.sources@[i]).date + 7 > MAX_DAY,
            (old(self).next_fire matches Some(t0) && t0 > now_utc) ==> r is Pending && *final(self)
                == *old(self),
            (old(self).next_fire matches Some(t0) && t0 <= now_utc) ==> (r is Fired
                || r is Horizon),
            old(self).next_fire is None ==> (r is Pending || r is Horizon),
    {
        let next = match self.next_fire {
            Some(t) => t,
            None => match self.next(now_utc) {
                Some(t) => t,
                None => {
                    return PollStep::Horizon;
                },
            },
        };
        if next > now_utc {
            let arm = if timer_armed {
                None
            } else {
                Some((next - now_utc) as u64)
            };
            PollStep::Pending { arm_for: arm }
        } else {
            match self.next(now_utc) {
                Some(t2) => PollStep::Fired { arm_for: (t2 - now_utc) as u64 },
                None => PollStep::Horizon,
            }
        }
    }
}

} // verus!
