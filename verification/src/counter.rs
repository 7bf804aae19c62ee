use vstd::prelude::*;

verus! {

/// A sequence holds strictly increasing values.
pub open spec fn sorted_strict(s: Seq<u32>) -> bool {
    forall|i: int, j: int| 0 <= i < j < s.len() ==> s[i] < s[j]
}

/// Strict lexicographic order on (weekday, hour, minute) triples.
pub open spec fn triple_lt(a: (u32, u32, u32), b: (u32, u32, u32)) -> bool {
    a.0 < b.0 || (a.0 == b.0 && (a.1 < b.1 || (a.1 == b.1 && a.2 < b.2)))
}

/// An index of a sorted sequence holding a given value.
proof fn lemma_index_of(s: Seq<u32>, x: u32) -> (i: int)
    requires
        s.contains(x),
    ensures
        0 <= i < s.len() && s[i] == x,
{
    choose|i: int| 0 <= i < s.len() && s[i] == x
}

/// A member of a strictly ascending sequence lies between its ends.
pub proof fn lemma_member_bounds(s: Seq<u32>, x: u32)
    requires
        sorted_strict(s),
        s.contains(x),
    ensures
        s.len() > 0,
        s[0] <= x <= s[s.len() - 1],
{
    let i = lemma_index_of(s, x);
    if i > 0 {
        assert(s[0] < s[i]);
    }
    if i < s.len() - 1 {
        assert(s[i] < s[s.len() - 1]);
    }
}

/// First index whose value is at least `x`; the length when none is.
fn lower_bound_ge(v: &Vec<u32>, x: u32) -> (idx: usize)
    requires
        sorted_strict(v@),
    ensures
        idx <= v@.len(),
        forall|j: int| 0 <= j < idx ==> v@[j] < x,
        idx < v@.len() ==> v@[idx as int] >= x,
{
    let mut i: usize = 0;
    while i < v.len()
        invariant
            i <= v@.len(),
            forall|j: int| 0 <= j < i ==> v@[j] < x,
        decreases v@.len() - i,
    {
        if v[i] >= x {
            return i;
        }
        i = i + 1;
    }
    i
}

/// First index whose value is strictly above `x`; the length when none is.
fn lower_bound_gt(v: &Vec<u32>, x: u32) -> (idx: usize)
    requires
        sorted_strict(v@),
    ensures
        idx <= v@.len(),
        forall|j: int| 0 <= j < idx ==> v@[j] <= x,
        idx < v@.len() ==> v@[idx as int] > x,
{
    let mut i: usize = 0;
    while i < v.len()
        invariant
            i <= v@.len(),
            forall|j: int| 0 <= j < i ==> v@[j] <= x,
        decreases v@.len() - i,
    {
        if v[i] > x {
            return i;
        }
        i = i + 1;
    }
    i
}

/// Mixed-radix cyclic counter: enumerates the Cartesian product of three
/// ordered sets in lexicographic order, minute varying fastest, wrapping back
/// to the minimal triple after the maximal one, forever.
pub struct CarryingUpIterator {
    pub wheel_w: Vec<u32>,
    pub wheel_h: Vec<u32>,
    pub wheel_m: Vec<u32>,
    pub pos_w: usize,
    pub pos_h: usize,
    pub pos_m: usize,
}

impl CarryingUpIterator {
    /// Validity: each wheel is a non-empty strictly increasing sequence and
    /// each position points inside its wheel.
    pub open spec fn wf(self) -> bool {
        &&& sorted_strict(self.wheel_w@)
        &&& sorted_strict(self.wheel_h@)
        &&& sorted_strict(self.wheel_m@)
        &&& 0 < self.wheel_w@.len() <= usize::MAX
        &&& 0 < self.wheel_h@.len() <= usize::MAX
        &&& 0 < self.wheel_m@.len() <= usize::MAX
        &&& self.pos_w < self.wheel_w@.len()
        &&& self.pos_h < self.wheel_h@.len()
        &&& self.pos_m < self.wheel_m@.len()
    }

    /// The triple the next pull will return.
    pub open spec fn current(self) -> (u32, u32, u32) {
        (
            self.wheel_w@[self.pos_w as int],
            self.wheel_h@[self.pos_h as int],
            self.wheel_m@[self.pos_m as int],
        )
    }

    /// The smallest triple of the product.
    pub open spec fn min_triple(self) -> (u32, u32, u32) {
        (self.wheel_w@[0], self.wheel_h@[0], self.wheel_m@[0])
    }

    /// A triple is drawn from the three wheels.
    pub open spec fn in_product(self, t: (u32, u32, u32)) -> bool {
        self.wheel_w@.contains(t.0) && self.wheel_h@.contains(t.1) && self.wheel_m@.contains(t.2)
    }

    /// The counter stands on the maximal triple.
    pub open spec fn at_max(self) -> bool {
        &&& self.pos_w + 1 == self.wheel_w@.len()
        &&& self.pos_h + 1 == self.wheel_h@.len()
        &&& self.pos_m + 1 == self.wheel_m@.len()
    }

    /// The position after one pull: minute advances first, carrying into the
    /// hour and then the weekday; the maximal position wraps to the minimal.
    pub open spec fn spec_step(self) -> CarryingUpIterator {
        if self.pos_m + 1 < self.wheel_m@.len() {
            CarryingUpIterator { pos_m: (self.pos_m + 1) as usize, ..self }
        } else if self.pos_h + 1 < self.wheel_h@.len() {
            CarryingUpIterator { pos_h: (self.pos_h + 1) as usize, pos_m: 0, ..self }
        } else if self.pos_w + 1 < self.wheel_w@.len() {
            CarryingUpIterator { pos_w: (self.pos_w + 1) as usize, pos_h: 0, pos_m: 0, ..self }
        } else {
            CarryingUpIterator { pos_w: 0, pos_h: 0, pos_m: 0, ..self }
        }
    }

    /// Construction needs three non-empty ordered sets and fails otherwise;
    /// the counter starts at the minimal triple.
    pub fn new(wdays: Vec<u32>, hours: Vec<u32>, mins: Vec<u32>) -> (r: Option<CarryingUpIterator>)
        requires
            sorted_strict(wdays@),
            sorted_strict(hours@),
            sorted_strict(mins@),
        ensures
            r is Some <==> wdays@.len() > 0 && hours@.len() > 0 && mins@.len() > 0,
            r is Some ==> r.unwrap().wf() && r.unwrap().wheel_w == wdays
                && r.unwrap().wheel_h == hours && r.unwrap().wheel_m == mins
                && r.unwrap().current() == r.unwrap().min_triple(),
    {
        if wdays.len() == 0 || hours.len() == 0 || mins.len() == 0 {
            None
        } else {
            Some(CarryingUpIterator {
                wheel_w: wdays,
                wheel_h: hours,
                wheel_m: mins,
                pos_w: 0,
                pos_h: 0,
                pos_m: 0,
            })
        }
    }

    /// Whether the counter stands on the maximal triple, so that the next
    /// pull wraps.
    pub fn at_maximum(&self) -> (r: bool)
        requires
            self.wf(),
        ensures
            r == self.at_max(),
    {
        self.pos_w == self.wheel_w.len() - 1 && self.pos_h == self.wheel_h.len() - 1
            && self.pos_m == self.wheel_m.len() - 1
    }

    /// One pull: returns the current triple and advances, wrapping forever.
    pub fn next(&mut self) -> (r: (u32, u32, u32))
        requires
            old(self).wf(),
        ensures
            r == old(self).current(),
            *final(self) == old(self).spec_step(),
            final(self).wf(),
    {
        let r = (self.wheel_w[self.pos_w], self.wheel_h[self.pos_h], self.wheel_m[self.pos_m]);
        if self.pos_m < self.wheel_m.len() - 1 {
            self.pos_m = self.pos_m + 1;
        } else if self.pos_h < self.wheel_h.len() - 1 {
            self.pos_m = 0;
            self.pos_h = self.pos_h + 1;
        } else if self.pos_w < self.wheel_w.len() - 1 {
            self.pos_m = 0;
            self.pos_h = 0;
            self.pos_w = self.pos_w + 1;
        } else {
            self.pos_m = 0;
            self.pos_h = 0;
            self.pos_w = 0;
        }
        r
    }

    /// The counter stands on the cyclically first triple strictly greater
    /// than `t`: the least triple above `t` when one exists in the product,
    /// and the minimal triple when none does.
    pub open spec fn primed_past(self, t: (u32, u32, u32)) -> bool {
        if exists|q: (u32, u32, u32)| self.in_product(q) && triple_lt(t, q) {
            triple_lt(t, self.current()) && self.in_product(self.current())
                && (forall|q: (u32, u32, u32)|
                    self.in_product(q) && triple_lt(t, q) ==> !triple_lt(q, self.current()))
        } else {
            self.current() == self.min_triple()
        }
    }

    /// Advance the counter silently so that the next pull yields the
    /// cyclically first triple strictly greater than `(tw, th, tm)`.
    pub fn advance_past(&mut self, tw: u32, th: u32, tm: u32)
        requires
            old(self).wf(),
        ensures
            final(self).wf(),
            final(self).wheel_w == old(self).wheel_w,
            final(self).wheel_h == old(self).wheel_h,
            final(self).wheel_m == old(self).wheel_m,
            final(self).primed_past((tw, th, tm)),
    {
        let ghost t = (tw, th, tm);
        let i0 = lower_bound_ge(&self.wheel_w, tw);
        if i0 == self.wheel_w.len() {
            self.pos_w = 0;
            self.pos_h = 0;
            self.pos_m = 0;
            proof {
                assert forall|q: (u32, u32, u32)|
                    self.in_product(q) implies !triple_lt(t, q) by {
                    let wi = lemma_index_of(self.wheel_w@, q.0);
                }
            }
            return;
        }
        if self.wheel_w[i0] > tw {
            self.pos_w = i0;
            self.pos_h = 0;
            self.pos_m = 0;
            proof {
                assert(self.in_product(self.current()));
                assert forall|q: (u32, u32, u32)|
                    self.in_product(q) && triple_lt(t, q) implies !triple_lt(q, self.current()) by {
                    let wi = lemma_index_of(self.wheel_w@, q.0);
                    let hi = lemma_index_of(self.wheel_h@, q.1);
                    let mi = lemma_index_of(self.wheel_m@, q.2);
                }
            }
            return;
        }
        // the target weekday is one of the wheel's values
        let j0 = lower_bound_ge(&self.wheel_h, th);
        if j0 < self.wheel_h.len() {
            if self.wheel_h[j0] > th {
                self.pos_w = i0;
                self.pos_h = j0;
                self.pos_m = 0;
                proof {
                    assert(self.in_product(self.current()));
                    assert forall|q: (u32, u32, u32)|
                        self.in_product(q) && triple_lt(t, q) implies !triple_lt(
                        q,
                        self.current(),
                    ) by {
                        let wi = lemma_index_of(self.wheel_w@, q.0);
                        let hi = lemma_index_of(self.wheel_h@, q.1);
                        let mi = lemma_index_of(self.wheel_m@, q.2);
                    }
                }
                return;
            }
            // the target hour is one of the wheel's values
            let k0 = lower_bound_gt(&self.wheel_m, tm);
            if k0 < self.wheel_m.len() {
                self.pos_w = i0;
                self.pos_h = j0;
                self.pos_m = k0;
                proof {
                    assert(self.in_product(self.current()));
                    assert forall|q: (u32, u32, u32)|
                        self.in_product(q) && triple_lt(t, q) implies !triple_lt(
                        q,
                        self.current(),
                    ) by {
                        let wi = lemma_index_of(self.wheel_w@, q.0);
                        let hi = lemma_index_of(self.wheel_h@, q.1);
                        let mi = lemma_index_of(self.wheel_m@, q.2);
                    }
                }
                return;
            }
            // every minute is at or below the target: carry into the hour
            if j0 + 1 < self.wheel_h.len() {
                self.pos_w = i0;
                self.pos_h = j0 + 1;
                self.pos_m = 0;
                proof {
                    assert(self.in_product(self.current()));
                    assert forall|q: (u32, u32, u32)|
                        self.in_product(q) && triple_lt(t, q) implies !triple_lt(
                        q,
                        self.current(),
                    ) by {
                        let wi = lemma_index_of(self.wheel_w@, q.0);
                        let hi = lemma_index_of(self.wheel_h@, q.1);
                        let mi = lemma_index_of(self.wheel_m@, q.2);
                    }
                }
                return;
            }
        }
        // no slot of the target weekday beats the target: carry into the weekday
        if i0 + 1 < self.wheel_w.len() {
            self.pos_w = i0 + 1;
            self.pos_h = 0;
            self.pos_m = 0;
            proof {
                assert(self.in_product(self.current()));
                assert forall|q: (u32, u32, u32)|
                    self.in_product(q) && triple_lt(t, q) implies !triple_lt(q, self.current()) by {
                    let wi = lemma_index_of(self.wheel_w@, q.0);
                    let hi = lemma_index_of(self.wheel_h@, q.1);
                    let mi = lemma_index_of(self.wheel_m@, q.2);
                }
            }
        } else {
            self.pos_w = 0;
            self.pos_h = 0;
            self.pos_m = 0;
            proof {
                assert forall|q: (u32, u32, u32)|
                    self.in_product(q) implies !triple_lt(t, q) by {
                    let wi = lemma_index_of(self.wheel_w@, q.0);
                    let hi = lemma_index_of(self.wheel_h@, q.1);
                    let mi = lemma_index_of(self.wheel_m@, q.2);
                }
            }
        }
    }

    /// Stepping anywhere but off the maximal triple yields a strictly greater
    /// triple; off the maximal one it wraps to the minimal triple.
    pub proof fn lemma_step_order(self)
        requires
            self.wf(),
        ensures
            !self.at_max() ==> triple_lt(self.current(), self.spec_step().current()),
            self.at_max() ==> self.spec_step().current() == self.min_triple(),
    {
        if self.pos_m + 1 < self.wheel_m@.len() {
            assert(self.wheel_m@[self.pos_m as int] < self.wheel_m@[self.pos_m + 1]);
        } else if self.pos_h + 1 < self.wheel_h@.len() {
            assert(self.wheel_h@[self.pos_h as int] < self.wheel_h@[self.pos_h + 1]);
        } else if self.pos_w + 1 < self.wheel_w@.len() {
            assert(self.wheel_w@[self.pos_w as int] < self.wheel_w@[self.pos_w + 1]);
        }
    }
}

} // verus!
