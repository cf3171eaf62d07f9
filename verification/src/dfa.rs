//! Sets of code points kept as sorted lists of closed intervals.

use vstd::prelude::*;

verus! {

/// The largest code point.
pub const MAX_CHAR: i32 = 0x10FFFF;

/// A closed interval `from ..= to` of code points.
#[derive(Clone, Copy, Debug)]
pub struct Range {
    pub from: i32,
    pub to: i32,
}

impl Range {
    /// The interval from `from` to `to`.
    pub fn new(from: i32, to: i32) -> (r: Self)
        ensures
            r.from == from,
            r.to == to,
    {
        Range { from, to }
    }
}

/// Whether some interval of `s` holds `i`.
pub open spec fn covers(s: Seq<Range>, i: int) -> bool {
    exists|k: int| 0 <= k < s.len() && (#[trigger] s[k]).from <= i <= s[k].to
}

/// The points that the intervals of `s` hold together.
pub open spec fn points(s: Seq<Range>) -> Set<int> {
    Set::new(|i: int| covers(s, i))
}

/// The canonical form of an interval list: every interval is a non-empty
/// stretch of code points, and each interval ends at least two below the
/// start of every later one, so the list is ascending and no two intervals
/// overlap or touch.
pub open spec fn canonical(s: Seq<Range>) -> bool {
    &&& forall|k: int| 0 <= k < s.len() ==> 0 <= (#[trigger] s[k]).from <= s[k].to <= MAX_CHAR
    &&& forall|j: int, k: int|
        0 <= j < k < s.len() ==> (#[trigger] s[j]).to + 1 < (#[trigger] s[k]).from
}

/// A set of code points.
pub struct CharSet {
    head: Vec<Range>,
}

impl View for CharSet {
    type V = Set<int>;

    open spec fn view(&self) -> Set<int> {
        points(self.intervals())
    }
}

impl CharSet {
    /// The interval list that represents the set.
    pub closed spec fn intervals(&self) -> Seq<Range> {
        self.head@
    }

    /// The representation invariant: the interval list is canonical.
    #[verifier::type_invariant]
    pub open spec fn wf(&self) -> bool {
        canonical(self.intervals())
    }

    /// The empty set.
    pub fn new() -> (s: Self)
        ensures
            s.wf(),
            s.intervals() == Seq::<Range>::empty(),
            s@ == Set::<int>::empty(),
    {
        let s = CharSet { head: Vec::new() };
        assert(s@ =~= Set::<int>::empty());
        s
    }

    /// Whether `i` is in the set.
    pub fn get(&self, i: i32) -> (b: bool)
        ensures
            b == self@.contains(i as int),
    {
        proof {
            use_type_invariant(self);
        }
        let mut cur: usize = 0;
        while cur < self.head.len()
            invariant
                0 <= cur <= self.head@.len(),
                canonical(self.head@),
                forall|k: int| 0 <= k < cur ==> (#[trigger] self.head@[k]).to < i,
            decreases self.head@.len() - cur,
        {
            if i < self.head[cur].from {
                return false;
            } else if i <= self.head[cur].to {
                return true;
            }
            cur += 1;
        }
        false
    }

    /// Puts `i` into the set. An interval that `i` touches grows by it, two
    /// intervals that it joins become one, and otherwise `i` enters as an
    /// interval of its own at its sorted place.
    pub fn set(&mut self, i: i32)
        requires
            0 <= i <= MAX_CHAR,
        ensures
            final(self).wf(),
            final(self)@ == old(self)@.insert(i as int),
    {
        proof {
            use_type_invariant(&*self);
        }
        let mut v: Vec<Range> = Vec::new();
        std::mem::swap(&mut v, &mut self.head);
        let ghost before = v@;
        let mut cur: usize = 0;
        while cur < v.len() && i >= v[cur].from - 1
            invariant
                v@ == before,
                before == old(self).intervals(),
                0 <= cur <= v@.len(),
                0 <= i <= MAX_CHAR,
                canonical(before),
                forall|k: int| 0 <= k < cur ==> (#[trigger] before[k]).to + 1 < i,
            decreases v@.len() - cur,
        {
            let from = v[cur].from;
            let to = v[cur].to;
            if i <= to + 1 {
                if i == from - 1 {
                    v.set(cur, Range { from: i, to });
                    proof {
                        lemma_widen(before, cur as int, v@[cur as int], i as int);
                    }
                } else if i == to + 1 {
                    let next = cur + 1;
                    if next < v.len() && i == v[next].from - 1 {
                        let joined = Range { from, to: v[next].to };
                        v.set(cur, joined);
                        v.remove(next);
                        proof {
                            lemma_join(before, cur as int, i as int);
                        }
                    } else {
                        v.set(cur, Range { from, to: i });
                        proof {
                            lemma_widen(before, cur as int, v@[cur as int], i as int);
                        }
                    }
                } else {
                    assert(points(before) =~= points(before).insert(i as int));
                }
                self.head = v;
                return ;
            }
            cur += 1;
        }
        v.insert(cur, Range { from: i, to: i });
        proof {
            lemma_single(before, cur as int, i as int);
        }
        self.head = v;
    }

    /// A copy of the set. The set itself stays as it is.
    pub fn clone(&mut self) -> (copy: CharSet)
        ensures
            copy.wf(),
            copy.intervals() == old(self).intervals(),
            copy@ == old(self)@,
            *final(self) == *old(self),
    {
        self.copy()
    }

    /// A copy of the set.
    pub fn copy(&self) -> (copy: CharSet)
        ensures
            copy.wf(),
            copy.intervals() == self.intervals(),
            copy@ == self@,
    {
        proof {
            use_type_invariant(self);
        }
        let mut v: Vec<Range> = Vec::new();
        let mut k: usize = 0;
        while k < self.head.len()
            invariant
                0 <= k <= self.head@.len(),
                v@ == self.head@.take(k as int),
            decreases self.head@.len() - k,
        {
            v.push(Range { from: self.head[k].from, to: self.head[k].to });
            assert(v@ =~= self.head@.take(k + 1));
            k += 1;
        }
        assert(v@ =~= self.head@);
        CharSet { head: v }
    }

    /// Whether the two sets hold the same points.
    pub fn equals(&self, other: &CharSet) -> (b: bool)
        ensures
            b == (self@ == other@),
            b == (self.intervals() == other.intervals()),
    {
        proof {
            use_type_invariant(self);
            use_type_invariant(other);
            if self@ == other@ {
                lemma_canonical_unique(self.head@, other.head@);
            }
        }
        if self.head.len() != other.head.len() {
            return false;
        }
        let mut k: usize = 0;
        while k < self.head.len()
            invariant
                0 <= k <= self.head@.len(),
                self.head@.len() == other.head@.len(),
                self.head@.take(k as int) == other.head@.take(k as int),
                self@ == other@ ==> self.head@ == other.head@,
            decreases self.head@.len() - k,
        {
            if self.head[k].from != other.head[k].from || self.head[k].to != other.head[k].to {
                return false;
            }
            assert(self.head@.take(k + 1) =~= self.head@.take(k as int).push(self.head@[k as int]));
            assert(other.head@.take(k + 1) =~= other.head@.take(k as int).push(
                other.head@[k as int],
            ));
            k += 1;
        }
        assert(self.head@ =~= self.head@.take(k as int));
        assert(other.head@ =~= other.head@.take(k as int));
        true
    }

    /// The number of points in the set.
    pub fn elements(&self) -> (n: i32)
        ensures
            self@.finite(),
            n == self@.len(),
    {
        proof {
            use_type_invariant(self);
        }
        let mut n: i32 = 0;
        let mut k: usize = 0;
        while k < self.head.len()
            invariant
                0 <= k <= self.head@.len(),
                canonical(self.head@),
                n == width_sum(self.head@.take(k as int)),
                0 <= n,
                k > 0 ==> n <= self.head@[k - 1].to + 1,
            decreases self.head@.len() - k,
        {
            proof {
                let t = self.head@.take(k + 1);
                assert(t.drop_last() =~= self.head@.take(k as int));
                assert(t.last() == self.head@[k as int]);
                if k > 0 {
                    assert(self.head@[k - 1].to + 1 < self.head@[k as int].from);
                }
            }
            n += self.head[k].to - self.head[k].from + 1;
            k += 1;
        }
        proof {
            assert(self.head@.take(k as int) =~= self.head@);
            lemma_points_len(self.head@);
        }
        n
    }

    /// The least point of the set, or -1 if the set is empty.
    pub fn first(&self) -> (i: i32)
        ensures
            i == -1 <==> self@ == Set::<int>::empty(),
            i != -1 ==> self@.contains(i as int) && forall|x: int| self@.contains(x) ==> i <= x,
    {
        proof {
            use_type_invariant(self);
        }
        if self.head.len() > 0 {
            let i = self.head[0].from;
            proof {
                assert(self.head@[0].from <= i <= self.head@[0].to);
                assert(self@.contains(i as int));
                assert forall|x: int| self@.contains(x) implies i <= x by {
                    let j = choose|j: int|
                        0 <= j < self.head@.len() && (#[trigger] self.head@[j]).from <= x
                            <= self.head@[j].to;
                    if j > 0 {
                        assert(self.head@[0].to + 1 < self.head@[j].from);
                    }
                }
            }
            return i;
        }
        assert(self@ =~= Set::<int>::empty());
        -1
    }

    /// Puts every point of `other` into the set.
    pub fn or(&mut self, other: &CharSet)
        ensures
            final(self).wf(),
            final(self)@ == old(self)@.union(other@),
    {
        proof {
            use_type_invariant(&*self);
            use_type_invariant(other);
            lemma_walk_begin(other.head@);
        }
        let ghost init = self@;
        let ghost all = other@;
        assert(self@ =~= init.union(below(all, start(other.head@, 0))));
        let mut k: usize = 0;
        while k < other.head.len()
            invariant
                0 <= k <= other.head@.len(),
                canonical(other.head@),
                all == points(other.head@),
                self.wf(),
                self@ == init.union(below(all, start(other.head@, k as int))),
            decreases other.head@.len() - k,
        {
            let to = other.head[k].to;
            let mut i: i32 = other.head[k].from;
            while i <= to
                invariant
                    0 <= k < other.head@.len(),
                    canonical(other.head@),
                    all == points(other.head@),
                    self.wf(),
                    to == other.head@[k as int].to,
                    other.head@[k as int].from <= i <= to + 1,
                    self@ == init.union(below(all, i as int)),
                decreases to + 1 - i,
            {
                proof {
                    lemma_walk_step(other.head@, k as int, i as int);
                }
                self.set(i);
                assert(self@ =~= init.union(below(all, i + 1)));
                i += 1;
            }
            proof {
                lemma_walk_next(other.head@, k as int);
            }
            k += 1;
        }
        proof {
            use_type_invariant(&*self);
            lemma_walk_end(other.head@);
        }
    }

    /// Keeps the points that are in `other` too.
    pub fn and(&mut self, other: &CharSet)
        ensures
            final(self).wf(),
            final(self)@ == old(self)@.intersect(other@),
    {
        proof {
            use_type_invariant(&*self);
            lemma_walk_begin(self.head@);
        }
        let ghost all = self@;
        let mut x = CharSet::new();
        assert(x@ =~= below(all, start(self.head@, 0)).intersect(other@));
        let mut k: usize = 0;
        while k < self.head.len()
            invariant
                0 <= k <= self.head@.len(),
                canonical(self.head@),
                all == points(self.head@),
                x.wf(),
                x@ == below(all, start(self.head@, k as int)).intersect(other@),
            decreases self.head@.len() - k,
        {
            let to = self.head[k].to;
            let mut i: i32 = self.head[k].from;
            while i <= to
                invariant
                    0 <= k < self.head@.len(),
                    canonical(self.head@),
                    all == points(self.head@),
                    x.wf(),
                    to == self.head@[k as int].to,
                    self.head@[k as int].from <= i <= to + 1,
                    x@ == below(all, i as int).intersect(other@),
                decreases to + 1 - i,
            {
                proof {
                    lemma_walk_step(self.head@, k as int, i as int);
                }
                if other.get(i) {
                    x.set(i);
                }
                assert(x@ =~= below(all, i + 1).intersect(other@));
                i += 1;
            }
            proof {
                lemma_walk_next(self.head@, k as int);
            }
            k += 1;
        }
        proof {
            use_type_invariant(&x);
            lemma_walk_end(self.head@);
        }
        *self = x;
    }

    /// Drops the points that are in `other`.
    pub fn subtract(&mut self, other: &CharSet)
        ensures
            final(self).wf(),
            final(self)@ == old(self)@.difference(other@),
    {
        proof {
            use_type_invariant(&*self);
            lemma_walk_begin(self.head@);
        }
        let ghost all = self@;
        let mut x = CharSet::new();
        assert(x@ =~= below(all, start(self.head@, 0)).difference(other@));
        let mut k: usize = 0;
        while k < self.head.len()
            invariant
                0 <= k <= self.head@.len(),
                canonical(self.head@),
                all == points(self.head@),
                x.wf(),
                x@ == below(all, start(self.head@, k as int)).difference(other@),
            decreases self.head@.len() - k,
        {
            let to = self.head[k].to;
            let mut i: i32 = self.head[k].from;
            while i <= to
                invariant
                    0 <= k < self.head@.len(),
                    canonical(self.head@),
                    all == points(self.head@),
                    x.wf(),
                    to == self.head@[k as int].to,
                    self.head@[k as int].from <= i <= to + 1,
                    x@ == below(all, i as int).difference(other@),
                decreases to + 1 - i,
            {
                proof {
                    lemma_walk_step(self.head@, k as int, i as int);
                }
                if !other.get(i) {
                    x.set(i);
                }
                assert(x@ =~= below(all, i + 1).difference(other@));
                i += 1;
            }
            proof {
                lemma_walk_next(self.head@, k as int);
            }
            k += 1;
        }
        proof {
            use_type_invariant(&x);
            lemma_walk_end(self.head@);
        }
        *self = x;
    }

    /// Whether every point of `other` is in the set.
    pub fn includes(&self, other: &CharSet) -> (b: bool)
        ensures
            b == other@.subset_of(self@),
    {
        proof {
            use_type_invariant(other);
            lemma_walk_begin(other.head@);
        }
        let ghost all = other@;
        let mut k: usize = 0;
        while k < other.head.len()
            invariant
                0 <= k <= other.head@.len(),
                canonical(other.head@),
                all == points(other.head@),
                below(all, start(other.head@, k as int)).subset_of(self@),
            decreases other.head@.len() - k,
        {
            let to = other.head[k].to;
            let mut i: i32 = other.head[k].from;
            while i <= to
                invariant
                    0 <= k < other.head@.len(),
                    canonical(other.head@),
                    all == points(other.head@),
                    to == other.head@[k as int].to,
                    other.head@[k as int].from <= i <= to + 1,
                    below(all, i as int).subset_of(self@),
                decreases to + 1 - i,
            {
                proof {
                    lemma_walk_step(other.head@, k as int, i as int);
                }
                if !self.get(i) {
                    return false;
                }
                i += 1;
            }
            proof {
                lemma_walk_next(other.head@, k as int);
            }
            k += 1;
        }
        proof {
            lemma_walk_end(other.head@);
        }
        true
    }

    /// Whether some point of `other` is in the set.
    pub fn intersects(&self, other: &CharSet) -> (b: bool)
        ensures
            b == !self@.disjoint(other@),
    {
        proof {
            use_type_invariant(other);
            lemma_walk_begin(other.head@);
        }
        let ghost all = other@;
        let mut k: usize = 0;
        while k < other.head.len()
            invariant
                0 <= k <= other.head@.len(),
                canonical(other.head@),
                all == points(other.head@),
                self@.disjoint(below(all, start(other.head@, k as int))),
            decreases other.head@.len() - k,
        {
            let to = other.head[k].to;
            let mut i: i32 = other.head[k].from;
            while i <= to
                invariant
                    0 <= k < other.head@.len(),
                    canonical(other.head@),
                    all == points(other.head@),
                    to == other.head@[k as int].to,
                    other.head@[k as int].from <= i <= to + 1,
                    self@.disjoint(below(all, i as int)),
                decreases to + 1 - i,
            {
                proof {
                    lemma_walk_step(other.head@, k as int, i as int);
                }
                if self.get(i) {
                    return true;
                }
                i += 1;
            }
            proof {
                lemma_walk_next(other.head@, k as int);
            }
            k += 1;
        }
        proof {
            lemma_walk_end(other.head@);
        }
        false
    }

    /// The end of the run that the code point `c` is in: the last point
    /// from `c` on up to which every point is in the set if `c` is, and out
    /// of it if `c` is.
    pub fn run_end(&self, c: i32) -> (e: i32)
        requires
            0 <= c <= MAX_CHAR,
        ensures
            c <= e <= MAX_CHAR,
            forall|x: int| c <= x <= e ==> self@.contains(x) == self@.contains(c as int),
            e < MAX_CHAR ==> self@.contains(e + 1) != self@.contains(c as int),
    {
        proof {
            use_type_invariant(self);
        }
        let mut k: usize = 0;
        while k < self.head.len()
            invariant
                0 <= k <= self.head@.len(),
                canonical(self.head@),
                0 <= c <= MAX_CHAR,
                forall|j: int| 0 <= j < k ==> (#[trigger] self.head@[j]).to < c,
            decreases self.head@.len() - k,
        {
            let from = self.head[k].from;
            let to = self.head[k].to;
            if c < from {
                proof {
                    lemma_gap(self.head@, k as int, c as int);
                }
                return from - 1;
            } else if c <= to {
                proof {
                    lemma_inside(self.head@, k as int, c as int);
                }
                return to;
            }
            k += 1;
        }
        proof {
            assert forall|x: int| c <= x implies !covers(self.head@, x) by {
                if covers(self.head@, x) {
                    let j = choose|j: int|
                        0 <= j < self.head@.len() && (#[trigger] self.head@[j]).from <= x
                            <= self.head@[j].to;
                    assert(self.head@[j].to < c);
                }
            }
            assert forall|x: int| c <= x <= MAX_CHAR implies self@.contains(x) == self@.contains(
                c as int,
            ) by {
                assert(self@.contains(x) == covers(self.head@, x));
                assert(self@.contains(c as int) == covers(self.head@, c as int));
            }
        }
        MAX_CHAR
    }

    /// Makes the set hold every code point.
    pub fn fill(&mut self)
        ensures
            final(self).wf(),
            final(self).intervals() == seq![Range { from: 0, to: MAX_CHAR }],
            final(self)@ == Set::new(|x: int| 0 <= x <= MAX_CHAR),
    {
        let mut v: Vec<Range> = Vec::new();
        v.push(Range { from: 0, to: MAX_CHAR });
        proof {
            assert(v@ =~= seq![Range { from: 0, to: MAX_CHAR }]);
            assert forall|x: int| 0 <= x <= MAX_CHAR implies covers(v@, x) by {
                assert(v@[0].from <= x <= v@[0].to);
            }
            assert(points(v@) =~= Set::new(|x: int| 0 <= x <= MAX_CHAR));
        }
        self.head = v;
    }
}

/// Stretching the interval at `k` by the point `i` just below or just above
/// it adds `i` to the points of the list.
proof fn lemma_widen(s: Seq<Range>, k: int, r: Range, i: int)
    requires
        0 <= k < s.len(),
        s[k].from <= s[k].to,
        (r.from == i && i == s[k].from - 1 && r.to == s[k].to) || (r.from == s[k].from && r.to == i
            && i == s[k].to + 1),
    ensures
        points(s.update(k, r)) == points(s).insert(i),
{
    let t = s.update(k, r);
    assert forall|x: int| covers(t, x) <==> (covers(s, x) || x == i) by {
        if covers(t, x) {
            let j = choose|j: int| 0 <= j < t.len() && (#[trigger] t[j]).from <= x <= t[j].to;
            if j != k {
                assert(s[j].from <= x <= s[j].to);
            } else if x != i {
                assert(s[k].from <= x <= s[k].to);
            }
        }
        if covers(s, x) {
            let j = choose|j: int| 0 <= j < s.len() && (#[trigger] s[j]).from <= x <= s[j].to;
            assert(t[j].from <= x <= t[j].to);
        }
        if x == i {
            assert(t[k].from <= x <= t[k].to);
        }
    }
    assert(points(t) =~= points(s).insert(i));
}

/// Joining the intervals at `k` and `k + 1`, which leave out `i` alone
/// between them, adds `i` to the points of the list.
proof fn lemma_join(s: Seq<Range>, k: int, i: int)
    requires
        0 <= k < s.len() - 1,
        s[k].from <= s[k].to,
        s[k + 1].from <= s[k + 1].to,
        i == s[k].to + 1,
        i == s[k + 1].from - 1,
    ensures
        points(s.update(k, Range { from: s[k].from, to: s[k + 1].to }).remove(k + 1)) == points(
            s,
        ).insert(i),
{
    let t = s.update(k, Range { from: s[k].from, to: s[k + 1].to }).remove(k + 1);
    assert forall|x: int| covers(t, x) <==> (covers(s, x) || x == i) by {
        if covers(t, x) {
            let j = choose|j: int| 0 <= j < t.len() && (#[trigger] t[j]).from <= x <= t[j].to;
            if j < k {
                assert(s[j].from <= x <= s[j].to);
            } else if j > k {
                assert(s[j + 1].from <= x <= s[j + 1].to);
            } else if x < i {
                assert(s[k].from <= x <= s[k].to);
            } else if x > i {
                assert(s[k + 1].from <= x <= s[k + 1].to);
            }
        }
        if covers(s, x) {
            let j = choose|j: int| 0 <= j < s.len() && (#[trigger] s[j]).from <= x <= s[j].to;
            if j <= k {
                assert(t[j].from <= x <= t[j].to);
            } else if j == k + 1 {
                assert(t[k].from <= x <= t[k].to);
            } else {
                assert(t[j - 1].from <= x <= t[j - 1].to);
            }
        }
        if x == i {
            assert(t[k].from <= x <= t[k].to);
        }
    }
    assert(points(t) =~= points(s).insert(i));
}

/// Inserting the one-point interval of `i` adds `i` to the points of the list.
proof fn lemma_single(s: Seq<Range>, k: int, i: int)
    requires
        0 <= k <= s.len(),
    ensures
        points(s.insert(k, Range { from: i as i32, to: i as i32 })) == points(s).insert(
            i as i32 as int,
        ),
{
    let t = s.insert(k, Range { from: i as i32, to: i as i32 });
    let i = i as i32 as int;
    assert forall|x: int| covers(t, x) <==> (covers(s, x) || x == i) by {
        if covers(t, x) {
            let j = choose|j: int| 0 <= j < t.len() && (#[trigger] t[j]).from <= x <= t[j].to;
            if j < k {
                assert(s[j].from <= x <= s[j].to);
            } else if j > k {
                assert(s[j - 1].from <= x <= s[j - 1].to);
            }
        }
        if covers(s, x) {
            let j = choose|j: int| 0 <= j < s.len() && (#[trigger] s[j]).from <= x <= s[j].to;
            if j < k {
                assert(t[j].from <= x <= t[j].to);
            } else {
                assert(t[j + 1].from <= x <= t[j + 1].to);
            }
        }
        if x == i {
            assert(t[k].from <= x <= t[k].to);
        }
    }
    assert(points(t) =~= points(s).insert(i));
}

/// The points of `s` below `i`.
spec fn below(s: Set<int>, i: int) -> Set<int> {
    Set::new(|x: int| s.contains(x) && x < i)
}

/// Where the interval of `s` at `k` starts; past the last interval, the end
/// of the code points.
spec fn start(s: Seq<Range>, k: int) -> int {
    if 0 <= k < s.len() {
        s[k].from as int
    } else {
        MAX_CHAR + 1
    }
}

/// The widths of the intervals of `s`, added up.
pub open spec fn width_sum(s: Seq<Range>) -> int
    decreases s.len(),
{
    if s.len() == 0 {
        0
    } else {
        width_sum(s.drop_last()) + (s.last().to - s.last().from + 1)
    }
}

/// No point of a canonical list lies below its first interval.
proof fn lemma_walk_begin(s: Seq<Range>)
    requires
        canonical(s),
    ensures
        below(points(s), start(s, 0)) == Set::<int>::empty(),
{
    assert forall|x: int| !(covers(s, x) && x < start(s, 0)) by {
        if covers(s, x) {
            let j = choose|j: int| 0 <= j < s.len() && (#[trigger] s[j]).from <= x <= s[j].to;
            if j > 0 {
                assert(s[0].to + 1 < s[j].from);
            }
        }
    }
    let none = below(points(s), start(s, 0));
    assert forall|x: int| #![trigger none.contains(x)] !none.contains(x) by {
        assert(points(s).contains(x) == covers(s, x));
    }
    assert(below(points(s), start(s, 0)) =~= Set::<int>::empty());
}

/// A point `i` inside the interval at `k` is a point of the list, and the
/// one that the points below `i + 1` have more than those below `i`.
proof fn lemma_walk_step(s: Seq<Range>, k: int, i: int)
    requires
        canonical(s),
        0 <= k < s.len(),
        s[k].from <= i <= s[k].to,
    ensures
        points(s).contains(i),
        0 <= i <= MAX_CHAR,
        below(points(s), i + 1) == below(points(s), i).insert(i),
{
    assert(s[k].from <= i <= s[k].to);
    assert(covers(s, i));
    assert(points(s).contains(i));
    assert(below(points(s), i + 1) =~= below(points(s), i).insert(i));
}

/// No point of a canonical list lies between the end of the interval at `k`
/// and the start of the next.
proof fn lemma_walk_next(s: Seq<Range>, k: int)
    requires
        canonical(s),
        0 <= k < s.len(),
    ensures
        below(points(s), s[k].to + 1) == below(points(s), start(s, k + 1)),
{
    assert forall|x: int| covers(s, x) implies (x < s[k].to + 1 <==> x < start(s, k + 1)) by {
        let j = choose|j: int| 0 <= j < s.len() && (#[trigger] s[j]).from <= x <= s[j].to;
        if j < k {
            assert(s[j].to + 1 < s[k].from);
        } else if j > k {
            assert(s[k].to + 1 < s[j].from);
            if j > k + 1 {
                assert(s[k + 1].to + 1 < s[j].from);
            }
        }
        if k + 1 < s.len() {
            assert(s[k].to + 1 < s[k + 1].from);
        }
    }
    let lo = below(points(s), s[k].to + 1);
    let hi = below(points(s), start(s, k + 1));
    assert forall|x: int| #![trigger lo.contains(x)] lo.contains(x) == hi.contains(x) by {
        assert(points(s).contains(x) == covers(s, x));
    }
    assert(below(points(s), s[k].to + 1) =~= below(points(s), start(s, k + 1)));
}

/// Every point of a canonical list lies below the end of the code points.
proof fn lemma_walk_end(s: Seq<Range>)
    requires
        canonical(s),
    ensures
        below(points(s), start(s, s.len() as int)) == points(s),
{
    assert forall|x: int| covers(s, x) implies x < MAX_CHAR + 1 by {
        let j = choose|j: int| 0 <= j < s.len() && (#[trigger] s[j]).from <= x <= s[j].to;
    }
    let all = below(points(s), MAX_CHAR + 1);
    assert forall|x: int| #![trigger all.contains(x)] all.contains(x) == points(s).contains(x) by {
        assert(points(s).contains(x) == covers(s, x));
    }
    assert(below(points(s), start(s, s.len() as int)) =~= points(s));
}

/// Between the intervals before `k`, which end below `c`, and the interval
/// at `k`, which starts above `c`, no point from `c` on is in the list, but
/// the start of the interval at `k` is.
proof fn lemma_gap(s: Seq<Range>, k: int, c: int)
    requires
        canonical(s),
        0 <= k < s.len(),
        c < s[k].from,
        forall|j: int| 0 <= j < k ==> (#[trigger] s[j]).to < c,
    ensures
        forall|x: int| c <= x < s[k].from ==> points(s).contains(x) == points(s).contains(c),
        points(s).contains(s[k].from as int) != points(s).contains(c),
{
    assert forall|x: int| c <= x < s[k].from implies !covers(s, x) by {
        if covers(s, x) {
            let j = choose|j: int| 0 <= j < s.len() && (#[trigger] s[j]).from <= x <= s[j].to;
            if j < k {
                assert(s[j].to < c);
            } else if j > k {
                assert(s[k].to + 1 < s[j].from);
            }
        }
    }
    assert forall|x: int| c <= x < s[k].from implies points(s).contains(x) == points(s).contains(
        c,
    ) by {
        assert(points(s).contains(x) == covers(s, x));
        assert(points(s).contains(c) == covers(s, c));
    }
    assert(s[k].from <= s[k].from <= s[k].to);
    assert(covers(s, s[k].from as int));
    assert(points(s).contains(c) == covers(s, c));
}

/// From a point `c` of the interval at `k` up to the end of that interval
/// every point is in the list, and the point behind the interval is not.
proof fn lemma_inside(s: Seq<Range>, k: int, c: int)
    requires
        canonical(s),
        0 <= k < s.len(),
        s[k].from <= c <= s[k].to,
    ensures
        forall|x: int| c <= x <= s[k].to ==> points(s).contains(x) == points(s).contains(c),
        !points(s).contains(s[k].to + 1),
        points(s).contains(c),
{
    assert forall|x: int| c <= x <= s[k].to implies points(s).contains(x) by {
        assert(s[k].from <= x <= s[k].to);
        assert(covers(s, x));
    }
    let x = s[k].to + 1;
    if covers(s, x) {
        let j = choose|j: int| 0 <= j < s.len() && (#[trigger] s[j]).from <= x <= s[j].to;
        if j < k {
            assert(s[j].to + 1 < s[k].from);
        } else if j > k {
            assert(s[k].to + 1 < s[j].from);
        }
    }
    assert(points(s).contains(x) == covers(s, x));
}

/// The points of a canonical list are as many as its widths add up to.
pub proof fn lemma_points_len(s: Seq<Range>)
    requires
        canonical(s),
    ensures
        points(s).finite(),
        points(s).len() == width_sum(s),
        0 <= width_sum(s) <= MAX_CHAR + 1,
        s.len() > 0 ==> width_sum(s) <= s.last().to + 1,
    decreases s.len(),
{
    if s.len() == 0 {
        assert(points(s) =~= Set::<int>::empty());
    } else {
        let t = s.drop_last();
        let r = s.last();
        assert(canonical(t));
        lemma_points_len(t);
        let span = vstd::set_lib::set_int_range(r.from as int, r.to + 1);
        vstd::set_lib::lemma_int_range(r.from as int, r.to + 1);
        assert forall|x: int| points(s).contains(x) <==> points(t).contains(x) || span.contains(
            x,
        ) by {
            if points(s).contains(x) {
                let j = choose|j: int| 0 <= j < s.len() && (#[trigger] s[j]).from <= x <= s[j].to;
                if j < s.len() - 1 {
                    assert(t[j].from <= x <= t[j].to);
                }
            }
            if points(t).contains(x) {
                let j = choose|j: int| 0 <= j < t.len() && (#[trigger] t[j]).from <= x <= t[j].to;
                assert(s[j].from <= x <= s[j].to);
            }
            if span.contains(x) {
                assert(s[s.len() - 1].from <= x <= s[s.len() - 1].to);
            }
        }
        assert(points(s) =~= points(t) + span);
        assert forall|x: int| points(t).contains(x) implies !span.contains(x) by {
            let j = choose|j: int| 0 <= j < t.len() && (#[trigger] t[j]).from <= x <= t[j].to;
            assert(s[j].to + 1 < s[s.len() - 1].from);
        }
        assert(points(t).disjoint(span));
        vstd::set_lib::lemma_set_disjoint_lens(points(t), span);
        if t.len() > 0 {
            assert(s[t.len() - 1].to + 1 < s[s.len() - 1].from);
        }
    }
}

/// Two canonical lists with the same points are the same list: a set has
/// one representation only.
pub proof fn lemma_canonical_unique(a: Seq<Range>, b: Seq<Range>)
    requires
        canonical(a),
        canonical(b),
        points(a) == points(b),
    ensures
        a == b,
    decreases a.len(),
{
    if a.len() == 0 || b.len() == 0 {
        if a.len() > 0 {
            assert(a[0].from <= a[0].from <= a[0].to);
            assert(points(a).contains(a[0].from as int));
        }
        if b.len() > 0 {
            assert(b[0].from <= b[0].from <= b[0].to);
            assert(points(b).contains(b[0].from as int));
        }
        assert(a =~= b);
    } else {
        let ra = a.last();
        let rb = b.last();
        lemma_last_interval(a, b);
        lemma_last_interval(b, a);
        assert(ra == rb);
        let ta = a.drop_last();
        let tb = b.drop_last();
        lemma_drop_last_points(a);
        lemma_drop_last_points(b);
        assert forall|x: int| covers(ta, x) <==> covers(tb, x) by {
            assert(points(a).contains(x) == covers(a, x));
            assert(points(b).contains(x) == covers(b, x));
            assert(covers(a, x) == covers(b, x));
            assert(covers(ta, x) <==> covers(a, x) && x < ra.from);
            assert(covers(tb, x) <==> covers(b, x) && x < rb.from);
        }
        assert(points(ta) =~= points(tb));
        lemma_canonical_unique(ta, tb);
        assert(a =~= ta.push(ra));
        assert(b =~= tb.push(rb));
    }
}

/// Of two canonical lists with the same points, the last interval of the
/// first neither ends above nor starts above that of the second.
proof fn lemma_last_interval(a: Seq<Range>, b: Seq<Range>)
    requires
        canonical(a),
        canonical(b),
        points(a) == points(b),
        a.len() > 0,
        b.len() > 0,
    ensures
        a.last().to <= b.last().to,
        a.last().from <= b.last().from,
{
    let ra = a.last();
    let rb = b.last();
    let n = b.len() - 1;
    // the end of `a`'s last interval is a point of `b`
    assert(a[a.len() - 1].from <= ra.to <= a[a.len() - 1].to);
    assert(points(b).contains(ra.to as int));
    let j = choose|j: int| 0 <= j < b.len() && (#[trigger] b[j]).from <= ra.to <= b[j].to;
    if j < n {
        assert(b[j].to + 1 < b[n].from);
    }
    assert(ra.to <= rb.to);
    // the point just below the start of `b`'s last interval is not in `b`,
    // so `a`'s last interval, which holds the end of `b`'s, starts no lower
    assert(b[n].from <= rb.to <= b[n].to);
    assert(points(a).contains(rb.to as int));
    let m = a.len() - 1;
    let i = choose|i: int| 0 <= i < a.len() && (#[trigger] a[i]).from <= rb.to <= a[i].to;
    if ra.from > rb.from {
        // then the start of `b`'s last interval is a point of `a` below `ra`
        assert(b[n].from <= rb.from <= b[n].to);
        assert(points(a).contains(rb.from as int));
        let h = choose|h: int| 0 <= h < a.len() && (#[trigger] a[h]).from <= rb.from <= a[h].to;
        assert(h < m);
        assert(a[h].to + 1 < a[m].from);
        // and the gap below `ra` lies inside `rb`
        let g = ra.from - 1;
        assert(rb.from <= g <= rb.to);
        assert(b[n].from <= g <= b[n].to);
        assert(points(a).contains(g));
        let f = choose|f: int| 0 <= f < a.len() && (#[trigger] a[f]).from <= g <= a[f].to;
        if f < m {
            assert(a[f].to + 1 < a[m].from);
        }
        assert(false);
    }
}

/// The points of a canonical list without its last interval are its points
/// below that interval.
proof fn lemma_drop_last_points(s: Seq<Range>)
    requires
        canonical(s),
        s.len() > 0,
    ensures
        canonical(s.drop_last()),
        forall|x: int|
            #![trigger covers(s.drop_last(), x)]
            covers(s.drop_last(), x) <==> covers(s, x) && x < s.last().from,
{
    let t = s.drop_last();
    let n = s.len() - 1;
    assert forall|x: int| #![trigger covers(t, x)] covers(t, x) <==> covers(s, x) && x < s.last().from by {
        if covers(t, x) {
            let j = choose|j: int| 0 <= j < t.len() && (#[trigger] t[j]).from <= x <= t[j].to;
            assert(s[j].from <= x <= s[j].to);
            assert(s[j].to + 1 < s[n].from);
        }
        if covers(s, x) && x < s.last().from {
            let j = choose|j: int| 0 <= j < s.len() && (#[trigger] s[j]).from <= x <= s[j].to;
            assert(t[j].from <= x <= t[j].to);
        }
    }
}

/// Uniting a set with itself and intersecting it with itself both give the
/// set back, and subtracting it from itself leaves the empty set.
pub proof fn lemma_self_operations(x: CharSet)
    requires
        x.wf(),
    ensures
        x@.union(x@) == x@,
        x@.intersect(x@) == x@,
        x@.difference(x@) == Set::<int>::empty(),
{
    assert(x@.union(x@) =~= x@);
    assert(x@.intersect(x@) =~= x@);
    assert(x@.difference(x@) =~= Set::<int>::empty());
}

/// A set includes another exactly if subtracting it from the other leaves
/// the empty set.
pub proof fn lemma_includes_iff_subtract_empty(a: CharSet, b: CharSet)
    requires
        a.wf(),
        b.wf(),
    ensures
        b@.subset_of(a@) <==> b@.difference(a@) == Set::<int>::empty(),
{
    if b@.subset_of(a@) {
        assert(b@.difference(a@) =~= Set::<int>::empty());
    }
    if b@.difference(a@) == Set::<int>::empty() {
        assert forall|x: int| b@.contains(x) implies a@.contains(x) by {
            assert(!b@.difference(a@).contains(x));
        }
    }
}

} // verus!
