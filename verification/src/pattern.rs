use vstd::prelude::*;

use crate::counter::CarryingUpIterator;
use crate::counter::sorted_strict;
use crate::counter::triple_lt;
use crate::stamp::MAX_DAY;
use crate::stamp::Stamp;
use crate::stamp::days_to_weekday;
use crate::stamp::lemma_days_to_weekday;
use crate::stamp::weekday_of;
use crate::stamp::weekday_of_day;

verus! {

/// `out` is the normal form of the pattern field input `inp` over the domain
/// `0 .. dom`: strictly ascending and holding exactly the supplied values, or
/// the whole domain where none were supplied.
pub open spec fn is_normal_field(out: Seq<u32>, inp: Seq<u32>, dom: u32) -> bool {
    &&& sorted_strict(out)
    &&& forall|v: u32|
        #[trigger] out.contains(v) <==> v < dom && (inp.len() == 0 || inp.contains(v))
}

/// Every supplied value of a field input lies inside its domain.
pub open spec fn field_in_domain(inp: Seq<u32>, dom: u32) -> bool {
    forall|i: int| 0 <= i < inp.len() ==> inp[i] < dom
}

/// A copy of a vector of values.
fn copy_vec(v: &Vec<u32>) -> (r: Vec<u32>)
    ensures
        r@ == v@,
{
    let mut r: Vec<u32> = Vec::new();
    let mut i: usize = 0;
    while i < v.len()
        invariant
            i <= v@.len(),
            r@ == v@.subrange(0, i as int),
        decreases v@.len() - i,
    {
        r.push(v[i]);
        proof {
            assert(r@ =~= v@.subrange(0, i + 1));
        }
        i = i + 1;
    }
    proof {
        assert(r@ =~= v@);
    }
    r
}

/// Whether a vector holds a value.
fn contains_val(v: &Vec<u32>, x: u32) -> (r: bool)
    ensures
        r == v@.contains(x),
{
    let mut i: usize = 0;
    while i < v.len()
        invariant
            i <= v@.len(),
            forall|j: int| 0 <= j < i ==> v@[j] != x,
        decreases v@.len() - i,
    {
        if v[i] == x {
            return true;
        }
        i = i + 1;
    }
    false
}

/// Normalize one pattern field: an empty input becomes the full domain;
/// otherwise the values are de-duplicated and sorted ascending. Fails exactly
/// when a supplied value lies outside the domain.
fn normalize_field(inp: &Vec<u32>, dom: u32) -> (r: Option<Vec<u32>>)
    requires
        0 < dom,
    ensures
        r is Some <==> field_in_domain(inp@, dom),
        r is Some ==> is_normal_field(r.unwrap()@, inp@, dom),
        r is Some ==> 0 < r.unwrap()@.len() <= dom,
        r is Some ==> forall|k: int| 0 <= k < r.unwrap()@.len() ==> r.unwrap()@[k] < dom,
{
    let mut i: usize = 0;
    while i < inp.len()
        invariant
            i <= inp@.len(),
            forall|j: int| 0 <= j < i ==> inp@[j] < dom,
        decreases inp@.len() - i,
    {
        if inp[i] >= dom {
            return None;
        }
        i = i + 1;
    }
    let take_all = inp.len() == 0;
    let mut out: Vec<u32> = Vec::new();
    let mut v: u32 = 0;
    while v < dom
        invariant
            v <= dom,
            sorted_strict(out@),
            out@.len() <= v,
            forall|k: int| 0 <= k < out@.len() ==> out@[k] < v,
            forall|x: u32| x < v ==> (#[trigger] out@.contains(x) <==> (take_all || inp@.contains(x))),
            forall|x: u32| out@.contains(x) ==> x < v,
            take_all == (inp@.len() == 0),
        decreases dom - v,
    {
        if take_all || contains_val(inp, v) {
            let ghost prev = out@;
            out.push(v);
            proof {
                assert forall|x: u32| #[trigger] out@.contains(x) implies prev.contains(x) || x == v by {
                    let k = choose|k: int| 0 <= k < out@.len() && out@[k] == x;
                    if k < prev.len() {
                        assert(prev[k] == x);
                    }
                }
                assert forall|x: u32| prev.contains(x) implies #[trigger] out@.contains(x) by {
                    let k = choose|k: int| 0 <= k < prev.len() && prev[k] == x;
                    assert(out@[k] == x);
                }
                assert(out@[out@.len() - 1] == v);
                assert(out@.contains(v));
                assert forall|k1: int, k2: int| 0 <= k1 < k2 < out@.len() implies out@[k1]
                    < out@[k2] by {
                    if k2 == out@.len() - 1 {
                        assert(out@[k1] == prev[k1] && prev[k1] < v);
                    } else {
                        assert(out@[k1] == prev[k1] && out@[k2] == prev[k2]);
                    }
                }
            }
        }
        v = v + 1;
    }
    proof {
        if take_all {
            assert(out@.contains(0u32));
        } else {
            assert(inp@.contains(inp@[0]));
            assert(out@.contains(inp@[0]));
        }
    }
    Some(out)
}

/// Two strictly ascending sequences with the same members are equal.
pub proof fn lemma_sorted_same_members(a: Seq<u32>, b: Seq<u32>)
    requires
        sorted_strict(a),
        sorted_strict(b),
        forall|v: u32| a.contains(v) <==> b.contains(v),
    ensures
        a == b,
    decreases a.len(),
{
    if a.len() == 0 {
        if b.len() > 0 {
            assert(b.contains(b[0]));
        }
        assert(a =~= b);
    } else {
        assert(a.contains(a[0]));
        assert(b.contains(a[0]));
        if b.len() == 0 {
            assert(false);
        }
        // both heads are the least member, so they agree
        let ia = choose|i: int| 0 <= i < a.len() && a[i] == b[0];
        let ib = choose|i: int| 0 <= i < b.len() && b[i] == a[0];
        assert(b.contains(b[0]));
        assert(a.contains(b[0]));
        assert(a[0] <= a[ia] && b[0] <= b[ib]) by {
            if ia > 0 {
                assert(a[0] < a[ia]);
            }
            if ib > 0 {
                assert(b[0] < b[ib]);
            }
        }
        assert(a[0] == b[0]);
        let a1 = a.subrange(1, a.len() as int);
        let b1 = b.subrange(1, b.len() as int);
        assert forall|v: u32| a1.contains(v) <==> b1.contains(v) by {
            lemma_tail_members(a, v);
            lemma_tail_members(b, v);
        }
        lemma_sorted_same_members(a1, b1);
        assert(a =~= b) by {
            assert(forall|i: int| 1 <= i < a.len() ==> a[i] == a1[i - 1] && b[i] == b1[i - 1]);
        }
    }
}

/// In a strictly ascending sequence, the tail's members are the members
/// other than the head.
proof fn lemma_tail_members(s: Seq<u32>, v: u32)
    requires
        sorted_strict(s),
        s.len() > 0,
    ensures
        s.subrange(1, s.len() as int).contains(v) <==> s.contains(v) && v != s[0],
{
    let t = s.subrange(1, s.len() as int);
    if t.contains(v) {
        let i = choose|i: int| 0 <= i < t.len() && t[i] == v;
        assert(s[i + 1] == v);
        assert(s[0] < s[i + 1]);
    }
    if s.contains(v) && v != s[0] {
        let i = choose|i: int| 0 <= i < s.len() && s[i] == v;
        assert(i != 0);
        assert(t[i - 1] == v);
    }
}

/// Normalization is order-independent: two field inputs with the same
/// members (any permutation of the same values, duplicates or not) have
/// equal normal forms.
pub proof fn lemma_normalize_order_independent(
    out1: Seq<u32>,
    inp1: Seq<u32>,
    out2: Seq<u32>,
    inp2: Seq<u32>,
    dom: u32,
)
    requires
        is_normal_field(out1, inp1, dom),
        is_normal_field(out2, inp2, dom),
        forall|v: u32| inp1.contains(v) <==> inp2.contains(v),
        inp1.len() == 0 <==> inp2.len() == 0,
    ensures
        out1 == out2,
{
    assert forall|v: u32| out1.contains(v) <==> out2.contains(v) by {
        assert(out1.contains(v) <==> v < dom && (inp1.len() == 0 || inp1.contains(v)));
        assert(out2.contains(v) <==> v < dom && (inp2.len() == 0 || inp2.contains(v)));
    }
    lemma_sorted_same_members(out1, out2);
}

/// Omitting a field (an empty input) normalizes to the same normal form as
/// supplying its full domain.
pub proof fn lemma_omitted_equals_full_domain(
    out_e: Seq<u32>,
    out_f: Seq<u32>,
    inp_f: Seq<u32>,
    dom: u32,
)
    requires
        0 < dom,
        is_normal_field(out_e, Seq::<u32>::empty(), dom),
        is_normal_field(out_f, inp_f, dom),
        forall|v: u32| inp_f.contains(v) <==> v < dom,
    ensures
        out_e == out_f,
{
    assert(inp_f.contains(0u32));
    assert forall|v: u32| out_e.contains(v) <==> out_f.contains(v) by {
        assert(out_e.contains(v) <==> v < dom);
        assert(out_f.contains(v) <==> v < dom && (inp_f.len() == 0 || inp_f.contains(v)));
    }
    lemma_sorted_same_members(out_e, out_f);
}

/// Construction is order-independent: two pattern inputs whose fields hold
/// the same members — any permutations of the same values — normalize to
/// equal patterns.
pub proof fn lemma_construction_order_independent(
    p1: UnitSchedule,
    w1: Seq<u32>,
    h1: Seq<u32>,
    m1: Seq<u32>,
    p2: UnitSchedule,
    w2: Seq<u32>,
    h2: Seq<u32>,
    m2: Seq<u32>,
)
    requires
        is_normal_field(p1.wdays@, w1, 7),
        is_normal_field(p1.hours@, h1, 24),
        is_normal_field(p1.mins@, m1, 60),
        is_normal_field(p2.wdays@, w2, 7),
        is_normal_field(p2.hours@, h2, 24),
        is_normal_field(p2.mins@, m2, 60),
        forall|v: u32| w1.contains(v) <==> w2.contains(v),
        forall|v: u32| h1.contains(v) <==> h2.contains(v),
        forall|v: u32| m1.contains(v) <==> m2.contains(v),
        w1.len() == 0 <==> w2.len() == 0,
        h1.len() == 0 <==> h2.len() == 0,
        m1.len() == 0 <==> m2.len() == 0,
    ensures
        p1.wdays@ == p2.wdays@,
        p1.hours@ == p2.hours@,
        p1.mins@ == p2.mins@,
{
    lemma_normalize_order_independent(p1.wdays@, w1, p2.wdays@, w2, 7);
    lemma_normalize_order_independent(p1.hours@, h1, p2.hours@, h2, 24);
    lemma_normalize_order_independent(p1.mins@, m1, p2.mins@, m2, 60);
}

/// A recurring calendar rule: permissible weekday (0-6, Sunday first), hour
/// (0-23) and minute (0-59) sets, normalized and immutable.
#[derive(Debug)]
pub struct UnitSchedule {
    pub wdays: Vec<u32>,
    pub hours: Vec<u32>,
    pub mins: Vec<u32>,
}

impl UnitSchedule {
    /// Validity: each set is strictly ascending, non-empty and inside its
    /// domain.
    pub open spec fn wf(self) -> bool {
        &&& sorted_strict(self.wdays@)
        &&& sorted_strict(self.hours@)
        &&& sorted_strict(self.mins@)
        &&& 0 < self.wdays@.len()
        &&& 0 < self.hours@.len()
        &&& 0 < self.mins@.len()
        &&& forall|k: int| 0 <= k < self.wdays@.len() ==> self.wdays@[k] < 7
        &&& forall|k: int| 0 <= k < self.hours@.len() ==> self.hours@[k] < 24
        &&& forall|k: int| 0 <= k < self.mins@.len() ==> self.mins@[k] < 60
    }

    /// A stamp satisfies the pattern: its weekday, hour and minute are all
    /// permitted.
    pub open spec fn matches(self, s: Stamp) -> bool {
        &&& self.wdays@.contains(weekday_of_day(s.day as int) as u32)
        &&& self.hours@.contains(s.hour)
        &&& self.mins@.contains(s.min)
    }

    /// Construct a normalized pattern. An empty set means the field's full
    /// domain; otherwise values are de-duplicated and sorted. Fails exactly
    /// when a supplied value lies outside its field's domain.
    pub fn new(wdays: Vec<u32>, hours: Vec<u32>, mins: Vec<u32>) -> (r: Option<UnitSchedule>)
        ensures
            r is Some <==> field_in_domain(wdays@, 7) && field_in_domain(hours@, 24)
                && field_in_domain(mins@, 60),
            r is Some ==> r.unwrap().wf(),
            r is Some ==> is_normal_field(r.unwrap().wdays@, wdays@, 7),
            r is Some ==> is_normal_field(r.unwrap().hours@, hours@, 24),
            r is Some ==> is_normal_field(r.unwrap().mins@, mins@, 60),
    {
        let nw = match normalize_field(&wdays, 7) {
            Some(v) => v,
            None => {
                return None;
            },
        };
        let nh = match normalize_field(&hours, 24) {
            Some(v) => v,
            None => {
                return None;
            },
        };
        let nm = match normalize_field(&mins, 60) {
            Some(v) => v,
            None => {
                return None;
            },
        };
        Some(UnitSchedule { wdays: nw, hours: nh, mins: nm })
    }

    /// Number of permitted weekdays.
    pub fn weekday_count(&self) -> (n: usize)
        ensures
            n == self.wdays@.len(),
    {
        self.wdays.len()
    }

    /// The start day's remainder is skipped: `since`'s time of day lies at
    /// or past the pattern's last (hour, minute) slot.
    pub open spec fn skips_start_day(self, since: Stamp) -> bool {
        let lh = self.hours@.last();
        let lm = self.mins@.last();
        lh < since.hour || (lh == since.hour && lm <= since.min)
    }

    /// The iterator `it` is this pattern's occurrence source primed strictly
    /// after `since`: its wheels are the pattern's sets; its tracked date is
    /// the first permitted date at or after the restart (the day after
    /// `since`'s when the start day's remainder is skipped); its counter
    /// stands on the cyclically first triple strictly past the restart time;
    /// its first emission lies strictly after `since`; and no occurrence of
    /// the pattern lies strictly between `since` and that emission, save the
    /// restart date's own midnight when the start day was left behind (the
    /// restart resets the time of day to midnight and the priming moves
    /// strictly past it). Kept opaque: reveal it to reach the clauses.
    #[verifier::opaque]
    pub open spec fn primed_for(self, since: Stamp, it: Iter) -> bool {
        let d0 = if self.skips_start_day(since) {
            since.day + 1
        } else {
            since.day as int
        };
        &&& it.wf()
        &&& it.inner.wheel_w@ == self.wdays@
        &&& it.inner.wheel_h@ == self.hours@
        &&& it.inner.wheel_m@ == self.mins@
        &&& d0 <= it.date <= since.day + 7
        &&& self.wdays@.contains(weekday_of_day(it.date as int) as u32)
        &&& forall|e: int|
            d0 <= e < it.date ==> !self.wdays@.contains(#[trigger] weekday_of_day(e) as u32)
        &&& it.inner.primed_past(
            (
                weekday_of_day(it.date as int) as u32,
                if it.date == since.day {
                    since.hour
                } else {
                    0u32
                },
                if it.date == since.day {
                    since.min
                } else {
                    0u32
                },
            ),
        )
        &&& it.peek().key() > since.key()
        &&& forall|s: Stamp|
            s.wf() && self.matches(s) && since.key() < (#[trigger] s.key()) < it.peek().key()
                ==> s == (Stamp { day: it.date, hour: 0u32, min: 0u32 })
    }

    /// The infinite ordered occurrence sequence of the pattern, primed so
    /// that the first pull yields the first occurrence strictly after
    /// `since`.
    pub fn iter_since(&self, since: &Stamp) -> (it: Iter)
        requires
            self.wf(),
            since.wf(),
            since.day + 8 <= MAX_DAY,
        ensures
            it.wf(),
            since.day <= it.date <= since.day + 7,
            self.primed_for(*since, it),
    {
        let mut d = since.day;
        let mut hh = since.hour;
        let mut mm = since.min;
        let lh = self.hours[self.hours.len() - 1];
        let lm = self.mins[self.mins.len() - 1];
        let ghost skipped = self.skips_start_day(*since);
        // at or past the day's last slot: the rest of the day is skipped
        if lh < hh || (lh == hh && lm <= mm) {
            d = d + 1;
            hh = 0;
            mm = 0;
        }
        let ghost d_base = d as int;
        // advance to the first date whose weekday is permitted
        let mut c: i64 = 0;
        proof {
            lemma_days_to_weekday(d as int, self.wdays@[0] as int);
        }
        let ghost target = days_to_weekday(d as int, self.wdays@[0] as int);
        while !contains_val(&self.wdays, weekday_of(d + c))
            invariant
                self.wf(),
                0 <= d,
                d + 7 <= MAX_DAY,
                0 <= c <= target <= 6,
                target == days_to_weekday(d as int, self.wdays@[0] as int),
                forall|e: int| 0 <= e < c ==> !self.wdays@.contains(#[trigger] weekday_of_day(d + e) as u32),
            decreases target - c,
        {
            proof {
                lemma_days_to_weekday(d as int, self.wdays@[0] as int);
                if c == target {
                    assert(weekday_of_day(d + c) == self.wdays@[0]);
                    assert(self.wdays@.contains(self.wdays@[0]));
                }
            }
            c = c + 1;
        }
        if c > 0 {
            d = d + c;
            hh = 0;
            mm = 0;
        }
        let w = weekday_of(d);
        let mut inner = match CarryingUpIterator::new(
            copy_vec(&self.wdays),
            copy_vec(&self.hours),
            copy_vec(&self.mins),
        ) {
            Some(it) => it,
            None => {
                proof {
                    assert(false);
                }
                vstd::pervasive::unreached()
            },
        };
        inner.advance_past(w, hh, mm);
        proof {
            let t = (w, hh, mm);
            if d == since.day {
                // no skip happened: the day's last slot still beats the target
                assert(self.hours@.contains(lh));
                assert(self.mins@.contains(lm));
                assert(inner.in_product((w, lh, lm)));
                assert(triple_lt(t, (w, lh, lm)));
                assert(triple_lt(t, inner.current()));
                let cur = inner.current();
                lemma_days_to_weekday(d as int, cur.0 as int);
                if cur.0 == w {
                    assert(days_to_weekday(d as int, cur.0 as int) == 0);
                } else {
                    assert(days_to_weekday(d as int, cur.0 as int) >= 1);
                }
            } else {
                let cur = inner.current();
                lemma_days_to_weekday(d as int, cur.0 as int);
            }
        }
        let it_r = Iter { inner, date: d };
        proof {
            reveal(UnitSchedule::primed_for);
            let d0 = if skipped {
                since.day + 1
            } else {
                since.day as int
            };
            assert(d0 == d_base);
            assert(it_r.date == d_base + c);
            assert(self.wdays@.contains(weekday_of_day(d_base + c) as u32));
            assert forall|e: int| d0 <= e < it_r.date implies !self.wdays@.contains(
                #[trigger] weekday_of_day(e) as u32,
            ) by {
                assert(!self.wdays@.contains(weekday_of_day(d_base + (e - d_base)) as u32));
            }
            assert(hh == (if it_r.date == since.day {
                since.hour
            } else {
                0u32
            }));
            assert(mm == (if it_r.date == since.day {
                since.min
            } else {
                0u32
            }));
            self.lemma_iter_since_minimal(*since, it_r, skipped, d_base, c as int, lh, lm);
        }
        it_r
    }

    /// Nothing the pattern matches lies strictly between the start and the
    /// primed iterator's first emission, save the restart date's midnight.
    proof fn lemma_iter_since_minimal(
        self,
        since: Stamp,
        it: Iter,
        skipped: bool,
        d_base: int,
        c: int,
        lh: u32,
        lm: u32,
    )
        requires
            self.wf(),
            since.wf(),
            since.day + 8 <= MAX_DAY,
            skipped == self.skips_start_day(since),
            lh == self.hours@.last(),
            lm == self.mins@.last(),
            d_base == since.day + (if skipped {
                1int
            } else {
                0int
            }),
            0 <= c <= 6,
            it.date == d_base + c,
            forall|e: int|
                0 <= e < c ==> !self.wdays@.contains(#[trigger] weekday_of_day(d_base + e) as u32),
            it.wf(),
            it.inner.wheel_w@ == self.wdays@,
            it.inner.wheel_h@ == self.hours@,
            it.inner.wheel_m@ == self.mins@,
            weekday_of_day(it.date as int) < 7,
            it.inner.primed_past(
                (
                    weekday_of_day(it.date as int) as u32,
                    if it.date == since.day {
                        since.hour
                    } else {
                        0u32
                    },
                    if it.date == since.day {
                        since.min
                    } else {
                        0u32
                    },
                ),
            ),
            it.peek().key() > since.key(),
        ensures
            forall|s: Stamp|
                s.wf() && self.matches(s) && since.key() < (#[trigger] s.key()) < it.peek().key()
                    ==> s == (Stamp { day: it.date, hour: 0u32, min: 0u32 }),
    {
        let d = it.date as int;
        let w = weekday_of_day(d) as u32;
        let hh = if it.date == since.day {
            since.hour
        } else {
            0u32
        };
        let mm = if it.date == since.day {
            since.min
        } else {
            0u32
        };
        let t = (w, hh, mm);
        let cur = it.inner.current();
        lemma_days_to_weekday(d, cur.0 as int);
        let pd = it.peek().day as int;
        let pk = it.peek().key();
        assert(cur.1 < 24 && cur.2 < 60);
        assert forall|s: Stamp|
            s.wf() && self.matches(s) && since.key() < (#[trigger] s.key()) < pk implies s == (
        Stamp { day: it.date, hour: 0u32, min: 0u32 }) by {
            let sd = s.day as int;
            let ws = weekday_of_day(sd) as u32;
            crate::counter::lemma_member_bounds(self.wdays@, ws);
            crate::counter::lemma_member_bounds(self.hours@, s.hour);
            crate::counter::lemma_member_bounds(self.mins@, s.min);
            let ts = (ws, s.hour, s.min);
            assert(it.inner.in_product(ts));
            if sd < since.day {
                // wholly before the start
                assert(s.key() < since.key());
            } else if sd < d {
                // between the start and the restart date
                if sd == since.day {
                    if skipped {
                        // every slot of the start day lies at or before the start
                        assert(s.key() <= since.key());
                    } else {
                        // the start day's weekday is not permitted
                        assert(!self.wdays@.contains(weekday_of_day(d_base + 0) as u32));
                    }
                } else {
                    // a day the weekday scan stepped over
                    assert(!self.wdays@.contains(
                        weekday_of_day(d_base + (sd - d_base)) as u32,
                    ));
                }
            } else if sd == d {
                // the restart date itself
                if s.hour == 0 && s.min == 0 && it.date != since.day {
                    // exactly the restart midnight: the one value left out
                    assert(s == (Stamp { day: it.date, hour: 0u32, min: 0u32 }));
                } else {
                    // a slot strictly past the restart time: the counter was
                    // primed to the least such, so the emission is no later
                    assert(ws == w);
                    assert(triple_lt(t, ts));
                    assert(triple_lt(t, cur) && !triple_lt(ts, cur));
                    assert(cur.0 == w);
                    assert(days_to_weekday(d, cur.0 as int) == 0);
                    assert(pk <= s.key());
                }
            } else {
                // past the restart date
                lemma_days_to_weekday(d, ws as int);
                let dws = days_to_weekday(d, ws as int);
                assert(sd >= d + dws) by {
                    if sd - d < dws {
                        assert(weekday_of_day(d + (sd - d)) != ws);
                    }
                }
                if exists|q: (u32, u32, u32)| it.inner.in_product(q) && triple_lt(t, q) {
                    assert(triple_lt(t, cur));
                    assert(cur.0 >= w);
                    assert(pd == d + (cur.0 - w));
                    if triple_lt(t, ts) {
                        assert(!triple_lt(ts, cur));
                        assert(ws >= w);
                        assert(dws == ws - w);
                        assert(cur.0 <= ws);
                        assert(pd <= sd);
                        if pd < sd {
                            assert(pk < s.key());
                        } else {
                            assert(cur.0 == ws);
                            assert(pk <= s.key());
                        }
                    } else {
                        // the occurrence's slot does not beat the restart
                        if ws == w {
                            crate::stamp::lemma_weekday_return(d, sd);
                            assert(pd <= d + 6);
                            assert(pk < s.key());
                        } else {
                            assert(ws < w);
                            assert(dws == ws + 7 - w);
                            assert(pd < sd);
                            assert(pk < s.key());
                        }
                    }
                } else {
                    // nothing beats the restart: the counter wrapped to the
                    // minimal triple
                    assert(cur == it.inner.min_triple());
                    assert(!triple_lt(t, ts));
                    assert(cur.0 <= ws);
                    if ws == w {
                        crate::stamp::lemma_weekday_return(d, sd);
                        assert(pd <= d + 6);
                        assert(pk < s.key());
                    } else {
                        assert(ws < w);
                        assert(dws == ws + 7 - w);
                        assert(cur.0 < w);
                        assert(days_to_weekday(d, cur.0 as int) == cur.0 + 7 - w);
                        assert(pd <= sd);
                        if pd < sd {
                            assert(pk < s.key());
                        } else {
                            assert(cur.0 == ws);
                            assert(cur.1 <= s.hour && cur.2 <= s.min);
                            assert(pk <= s.key());
                        }
                    }
                }
            }
        }
    }
}

/// The positioned occurrence iterator: a primed cyclic counter coupled with
/// the tracked calendar date, yielding concrete timestamps.
pub struct Iter {
    pub inner: CarryingUpIterator,
    pub date: i64,
}

impl Iter {
    /// Validity: the counter is valid, its wheels hold weekday, hour and
    /// minute values, and the tracked date is in range.
    pub open spec fn wf(self) -> bool {
        &&& self.inner.wf()
        &&& forall|k: int| 0 <= k < self.inner.wheel_w@.len() ==> self.inner.wheel_w@[k] < 7
        &&& forall|k: int| 0 <= k < self.inner.wheel_h@.len() ==> self.inner.wheel_h@[k] < 24
        &&& forall|k: int| 0 <= k < self.inner.wheel_m@.len() ==> self.inner.wheel_m@[k] < 60
        &&& 0 <= self.date <= MAX_DAY
    }

    /// The timestamp the next pull will emit: the counter's current triple,
    /// placed on the first date at or after the tracked one with the
    /// triple's weekday.
    pub open spec fn peek(self) -> Stamp {
        let t = self.inner.current();
        Stamp {
            day: (self.date + days_to_weekday(self.date as int, t.0 as int)) as i64,
            hour: t.1,
            min: t.2,
        }
    }

    /// The iterator's state after one pull. When the pull took the maximal
    /// triple the counter has wrapped: a whole cycle is done and the next
    /// occurrence lies on a later date, so the tracked date moves past the
    /// emitted one before the next weekday search.
    pub open spec fn spec_step(self) -> Iter {
        Iter {
            inner: self.inner.spec_step(),
            date: if self.inner.at_max() {
                (self.peek().day + 1) as i64
            } else {
                self.peek().day
            },
        }
    }

    /// One pull: emit the next occurrence and advance. Returns nothing only
    /// at the far end of the representable range.
    pub fn next(&mut self) -> (r: Option<Stamp>)
        requires
            old(self).wf(),
        ensures
            r is Some <==> old(self).date + 7 <= MAX_DAY,
            r is None ==> *final(self) == *old(self),
            r is Some ==> r.unwrap() == old(self).peek() && *final(self) == old(self).spec_step()
                && final(self).wf() && r.unwrap().wf(),
    {
        if self.date > MAX_DAY - 7 {
            return None;
        }
        let ghost start = *self;
        let was_max = self.inner.at_maximum();
        let (w, h, m) = self.inner.next();
        proof {
            assert(self.inner.wheel_w@.contains(w));
            lemma_days_to_weekday(self.date as int, w as int);
        }
        let ghost target = days_to_weekday(self.date as int, w as int);
        let mut c: i64 = 0;
        while c < 7 && weekday_of(self.date) != w
            invariant
                0 <= self.date,
                start.date <= MAX_DAY - 7,
                0 <= c <= target <= 6,
                w < 7,
                self.date == start.date + c,
                target - c == days_to_weekday(self.date as int, w as int),
                self.inner == start.inner.spec_step(),
            decreases target - c,
        {
            proof {
                lemma_days_to_weekday(self.date as int, w as int);
                lemma_days_to_weekday((self.date + 1) as int, w as int);
                if c == target {
                    assert(weekday_of_day(self.date as int) == w);
                }
            }
            self.date = self.date + 1;
            c = c + 1;
        }
        proof {
            lemma_days_to_weekday(self.date as int, w as int);
            assert(weekday_of_day(self.date as int) == w);
            assert(self.date == start.date + target);
        }
        let day = self.date;
        if was_max {
            self.date = self.date + 1;
        }
        Some(Stamp { day, hour: h, min: m })
    }

    /// Successive pulls yield strictly increasing timestamps, for every
    /// valid pattern.
    pub proof fn lemma_peek_strictly_increases(self)
        requires
            self.wf(),
        ensures
            self.spec_step().peek().key() > self.peek().key(),
    {
        lemma_model_step_increases(self.inner, self.date as int);
    }

    /// The ordering key of the occurrence that the `n`-th pull from here
    /// will emit, counting from zero, on the unbounded abstraction.
    pub open spec fn emission_key(self, n: nat) -> int {
        model_peek_key(model_n(self.inner, self.date as int, n))
    }

    /// The whole infinite occurrence sequence is strictly increasing, for
    /// every valid pattern: each emission lies strictly above the one
    /// before it.
    pub proof fn lemma_emissions_strictly_increase(self, n: nat)
        requires
            self.wf(),
        ensures
            self.emission_key(n + 1) > self.emission_key(n),
    {
        lemma_model_n_valid(self.inner, self.date as int, n);
        let m = model_n(self.inner, self.date as int, n);
        lemma_model_step_increases(m.counter, m.date);
    }

    /// Every emission of the sequence, however far out, lies strictly above
    /// any bound the first one lies above — with a primed iterator, strictly
    /// above the starting instant.
    pub proof fn lemma_emissions_stay_above(self, bound: int, n: nat)
        requires
            self.wf(),
            self.peek().key() > bound,
        ensures
            self.emission_key(n) > bound,
        decreases n,
    {
        assert(self.emission_key(0) == self.peek().key());
        if n > 0 {
            self.lemma_emissions_stay_above(bound, (n - 1) as nat);
            self.lemma_emissions_strictly_increase((n - 1) as nat);
        }
    }
}

/// The occurrence generator freed of machine bounds: a counter state with an
/// unbounded tracked day number.
pub struct IterModel {
    pub counter: CarryingUpIterator,
    pub date: int,
}

impl IterModel {
    /// Validity of the abstraction: a valid counter over weekday, hour and
    /// minute wheels, and a day number.
    pub open spec fn wf(self) -> bool {
        &&& self.counter.wf()
        &&& forall|k: int| 0 <= k < self.counter.wheel_w@.len() ==> self.counter.wheel_w@[k] < 7
        &&& forall|k: int| 0 <= k < self.counter.wheel_h@.len() ==> self.counter.wheel_h@[k] < 24
        &&& forall|k: int| 0 <= k < self.counter.wheel_m@.len() ==> self.counter.wheel_m@[k] < 60
        &&& 0 <= self.date
    }
}

/// The key of the occurrence the model emits next.
pub open spec fn model_peek_key(m: IterModel) -> int {
    let t = m.counter.current();
    (m.date + days_to_weekday(m.date, t.0 as int)) * 1440 + t.1 * 60 + t.2
}

/// The model after one pull: the counter advances; the date moves to the
/// emitted occurrence's, and one further when the pull wrapped the counter,
/// since a whole cycle is done and the next occurrence lies on a later date.
pub open spec fn model_step(m: IterModel) -> IterModel {
    IterModel {
        counter: m.counter.spec_step(),
        date: m.date + days_to_weekday(m.date, m.counter.current().0 as int) + (
        if m.counter.at_max() {
            1int
        } else {
            0int
        }),
    }
}

/// The model after `n` pulls from the given counter state and day number.
pub open spec fn model_n(c: CarryingUpIterator, date: int, n: nat) -> IterModel
    decreases n,
{
    if n == 0 {
        IterModel { counter: c, date }
    } else {
        model_step(model_n(c, date, (n - 1) as nat))
    }
}

/// One model step keeps it valid, never moves the date back, keeps the
/// wheels, and emits strictly later next.
pub proof fn lemma_model_step_increases(c: CarryingUpIterator, date: int)
    requires
        (IterModel { counter: c, date }).wf(),
    ensures
        model_step(IterModel { counter: c, date }).wf(),
        model_step(IterModel { counter: c, date }).counter.wheel_w == c.wheel_w,
        model_step(IterModel { counter: c, date }).counter.wheel_h == c.wheel_h,
        model_step(IterModel { counter: c, date }).counter.wheel_m == c.wheel_m,
        model_peek_key(model_step(IterModel { counter: c, date })) > model_peek_key(
            IterModel { counter: c, date },
        ),
{
    let m = IterModel { counter: c, date };
    let t = c.current();
    let t2 = c.spec_step().current();
    c.lemma_step_order();
    lemma_days_to_weekday(date, t.0 as int);
    let d1 = date + days_to_weekday(date, t.0 as int);
    if c.at_max() {
        // a whole cycle is done: the date has moved past the emitted one
        lemma_days_to_weekday(d1 + 1, t2.0 as int);
        assert(days_to_weekday(d1 + 1, t2.0 as int) >= 0);
    } else {
        lemma_days_to_weekday(d1, t2.0 as int);
        if t2.0 == t.0 {
            assert(days_to_weekday(d1, t2.0 as int) == 0);
        } else {
            assert(days_to_weekday(d1, t2.0 as int) >= 1);
        }
    }
}

/// Any number of model steps keeps it valid with the wheels unchanged.
pub proof fn lemma_model_n_valid(c: CarryingUpIterator, date: int, n: nat)
    requires
        (IterModel { counter: c, date }).wf(),
    ensures
        model_n(c, date, n).wf(),
        model_n(c, date, n).counter.wheel_w == c.wheel_w,
        model_n(c, date, n).counter.wheel_h == c.wheel_h,
        model_n(c, date, n).counter.wheel_m == c.wheel_m,
    decreases n,
{
    if n > 0 {
        lemma_model_n_valid(c, date, (n - 1) as nat);
        let m = model_n(c, date, (n - 1) as nat);
        lemma_model_step_increases(m.counter, m.date);
    }
}

} // verus!
