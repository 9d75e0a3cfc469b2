//! A compact set of packed boards: each 64-bit value is split into its top
//! and bottom 32 bits, and the bottoms are kept in one group per top.
use crate::board::Board;
use crate::loader::{stream_values, values_from, word_at, LazyRawBoardLoader, DELIMITER};
use vstd::prelude::*;

verus! {

/// The top 32 bits of a packed value.
pub open spec fn top_of(x: u64) -> u32 {
    (x >> 32u64) as u32
}

/// The bottom 32 bits of a packed value.
pub open spec fn bottom_of(x: u64) -> u32 {
    x as u32
}

/// The packed value with the given top and bottom halves.
pub open spec fn join(top: u32, bottom: u32) -> u64 {
    ((top as u64) << 32u64) | (bottom as u64)
}

pub proof fn lemma_join_split(top: u32, bottom: u32, x: u64)
    ensures
        top_of(join(top, bottom)) == top,
        bottom_of(join(top, bottom)) == bottom,
        join(top_of(x), bottom_of(x)) == x,
{
    assert(((((top as u64) << 32u64) | (bottom as u64)) >> 32u64) as u32 == top) by (bit_vector);
    assert((((top as u64) << 32u64) | (bottom as u64)) as u32 == bottom) by (bit_vector);
    assert(((((x >> 32u64) as u32) as u64) << 32u64) | ((x as u32) as u64) == x) by (bit_vector);
}

fn split_value(x: u64) -> (r: (u32, u32))
    ensures
        r.0 == top_of(x),
        r.1 == bottom_of(x),
{
    ((x >> 32) as u32, x as u32)
}

fn join_value(top: u32, bottom: u32) -> (r: u64)
    ensures
        r == join(top, bottom),
{
    ((top as u64) << 32) | (bottom as u64)
}

/// The bottoms that share one top, with room for `capacity` of them.
#[derive(Debug, Clone)]
pub struct BottomGroup {
    pub top: u32,
    pub bottoms: Vec<u32>,
    pub capacity: usize,
}

pub open spec fn group_has(g: BottomGroup, x: u64) -> bool {
    g.top == top_of(x) && g.bottoms@.contains(bottom_of(x))
}

/// The number of values in the first `k` groups.
pub open spec fn count_upto(groups: Seq<BottomGroup>, k: int) -> nat
    decreases k,
{
    if k <= 0 {
        0
    } else {
        count_upto(groups, k - 1) + groups[k - 1].bottoms@.len()
    }
}

/// Whether one of `groups` holds `x`.
pub open spec fn groups_have(groups: Seq<BottomGroup>, x: u64) -> bool {
    exists|i: int| 0 <= i < groups.len() && group_has(#[trigger] groups[i], x)
}

pub open spec fn tops_distinct(groups: Seq<BottomGroup>) -> bool {
    forall|i: int, j: int|
        0 <= i < j < groups.len() ==> #[trigger] groups[i].top != #[trigger] groups[j].top
}

/// Whether one of the first `j` items of `s` is `b`.
pub open spec fn prefix_has<T>(s: Seq<T>, j: int, b: T) -> bool {
    exists|m: int| 0 <= m < j && #[trigger] s[m] == b
}

proof fn lemma_push_contains<T>(s: Seq<T>, v: T, y: T)
    ensures
        s.push(v).contains(y) == (s.contains(y) || y == v),
{
    let t = s.push(v);
    if t.contains(y) {
        let m = choose|m: int| 0 <= m < t.len() && t[m] == y;
        if m < s.len() {
            assert(s[m] == y);
        }
    }
    if s.contains(y) {
        let m = choose|m: int| 0 <= m < s.len() && s[m] == y;
        assert(t[m] == y);
    }
    if y == v {
        assert(t[s.len() as int] == y);
    }
}

proof fn lemma_prefix_full<T>(s: Seq<T>, b: T)
    ensures
        prefix_has(s, s.len() as int, b) == s.contains(b),
{
    if s.contains(b) {
        let m = choose|m: int| 0 <= m < s.len() && s[m] == b;
        assert(prefix_has(s, s.len() as int, b));
    }
}

proof fn lemma_prefix_step<T>(s: Seq<T>, j: int, b: T)
    requires
        0 <= j < s.len(),
    ensures
        prefix_has(s, j + 1, b) == (prefix_has(s, j, b) || s[j] == b),
{
    if prefix_has(s, j + 1, b) {
        let m = choose|m: int| 0 <= m < j + 1 && #[trigger] s[m] == b;
        if m < j {
            assert(prefix_has(s, j, b));
        }
    }
    if prefix_has(s, j, b) {
        let m = choose|m: int| 0 <= m < j && #[trigger] s[m] == b;
        assert(prefix_has(s, j + 1, b));
    }
    if s[j] == b {
        assert(prefix_has(s, j + 1, b));
    }
}


/// Whether a group other than the `i`-th holds `x`.
pub open spec fn groups_have_except(groups: Seq<BottomGroup>, i: int, x: u64) -> bool {
    exists|k: int| 0 <= k < groups.len() && k != i && group_has(#[trigger] groups[k], x)
}

proof fn lemma_have_split(groups: Seq<BottomGroup>, i: int, y: u64)
    requires
        0 <= i < groups.len(),
    ensures
        groups_have(groups, y) == (groups_have_except(groups, i, y) || group_has(groups[i], y)),
{
    if groups_have(groups, y) {
        let k = choose|k: int| 0 <= k < groups.len() && group_has(#[trigger] groups[k], y);
    }
    if groups_have_except(groups, i, y) {
        let k = choose|k: int| 0 <= k < groups.len() && k != i && group_has(#[trigger] groups[k], y);
    }
}

proof fn lemma_have_update(groups: Seq<BottomGroup>, i: int, g: BottomGroup, y: u64)
    requires
        0 <= i < groups.len(),
    ensures
        groups_have(groups.update(i, g), y) == (groups_have_except(groups, i, y) || group_has(g, y)),
{
    let n = groups.update(i, g);
    lemma_have_split(n, i, y);
    if groups_have_except(n, i, y) {
        let k = choose|k: int| 0 <= k < n.len() && k != i && group_has(#[trigger] n[k], y);
        assert(group_has(groups[k], y));
    }
    if groups_have_except(groups, i, y) {
        let k = choose|k: int| 0 <= k < groups.len() && k != i && group_has(#[trigger] groups[k], y);
        assert(group_has(n[k], y));
    }
}

proof fn lemma_have_push(groups: Seq<BottomGroup>, g: BottomGroup, y: u64)
    ensures
        groups_have(groups.push(g), y) == (groups_have(groups, y) || group_has(g, y)),
{
    let n = groups.push(g);
    lemma_have_split(n, groups.len() as int, y);
    if groups_have_except(n, groups.len() as int, y) {
        let k = choose|k: int| 0 <= k < n.len() && k != groups.len() && group_has(#[trigger] n[k], y);
        assert(group_has(groups[k], y));
    }
    if groups_have(groups, y) {
        let k = choose|k: int| 0 <= k < groups.len() && group_has(#[trigger] groups[k], y);
        assert(group_has(n[k], y));
    }
}

proof fn lemma_have_prefix_step(groups: Seq<BottomGroup>, i: int, y: u64)
    requires
        0 <= i < groups.len(),
    ensures
        groups_have(groups.subrange(0, i + 1), y) == (groups_have(groups.subrange(0, i), y)
            || group_has(groups[i], y)),
{
    assert(groups.subrange(0, i + 1) =~= groups.subrange(0, i).push(groups[i]));
    lemma_have_push(groups.subrange(0, i), groups[i], y);
}

/// A set of `u64` values (packed boards).
#[derive(Debug, Default, Clone)]
pub struct RawBoardSet {
    pub groups: Vec<BottomGroup>,
}

impl RawBoardSet {
    /// Tops are distinct, the bottoms of a group are distinct, and no group
    /// holds more than its capacity.
    pub open spec fn wf(&self) -> bool {
        &&& tops_distinct(self.groups@)
        &&& forall|i: int|
            0 <= i < self.groups@.len() ==> (#[trigger] self.groups@[i]).bottoms@.no_duplicates()
                && self.groups@[i].bottoms@.len() <= self.groups@[i].capacity
    }

    /// Whether `x` is in the set.
    pub open spec fn has(&self, x: u64) -> bool {
        groups_have(self.groups@, x)
    }

    /// The number of values in the set (when it is well formed).
    pub open spec fn count(&self) -> nat {
        count_upto(self.groups@, self.groups@.len() as int)
    }

    pub fn new() -> (r: Self)
        ensures
            r.wf(),
            r.groups@.len() == 0,
            forall|x: u64| !#[trigger] r.has(x),
    {
        RawBoardSet { groups: Vec::new() }
    }

    fn find_group(&self, top: u32) -> (r: Option<usize>)
        ensures
            r.is_some() ==> r.unwrap() < self.groups@.len() && self.groups@[r.unwrap() as int].top
                == top,
            r.is_none() ==> forall|i: int|
                0 <= i < self.groups@.len() ==> #[trigger] self.groups@[i].top != top,
    {
        let mut i: usize = 0;
        while i < self.groups.len()
            invariant
                0 <= i <= self.groups@.len(),
                forall|k: int| 0 <= k < i ==> #[trigger] self.groups@[k].top != top,
            decreases self.groups@.len() - i,
        {
            if self.groups[i].top == top {
                return Some(i);
            }
            i += 1;
        }
        None
    }

    /// Whether `x` is in the set.
    pub fn contains(&self, x: &u64) -> (r: bool)
        ensures
            r == self.has(*x),
    {
        let (top, bottom) = split_value(*x);
        let mut i: usize = 0;
        while i < self.groups.len()
            invariant
                0 <= i <= self.groups@.len(),
                top == top_of(*x),
                bottom == bottom_of(*x),
                forall|k: int| 0 <= k < i ==> !group_has(#[trigger] self.groups@[k], *x),
            decreases self.groups@.len() - i,
        {
            if self.groups[i].top == top && vec_contains(&self.groups[i].bottoms, bottom) {
                proof {
                    assert(group_has(self.groups@[i as int], *x));
                }
                return true;
            }
            i += 1;
        }
        false
    }

    /// Adds `x`; returns whether it was new.
    pub fn insert(&mut self, x: u64) -> (r: bool)
        ensures
            old(self).wf() ==> final(self).wf(),
            r == !old(self).has(x),
            forall|y: u64| #[trigger] final(self).has(y) == (old(self).has(y) || y == x),
    {
        if self.contains(&x) {
            return false;
        }
        let (top, bottom) = split_value(x);
        let ghost old_groups = self.groups@;
        proof {
            lemma_join_split(top, bottom, x);
        }
        match self.find_group(top) {
            None => {
                let mut bottoms: Vec<u32> = Vec::new();
                bottoms.push(bottom);
                let g = BottomGroup { top, bottoms, capacity: 1 };
                proof {
                    assert(g.bottoms@[0] == bottom);
                    assert forall|y: u64| #[trigger] group_has(g, y) == (y == x) by {
                        lemma_join_split(top_of(y), bottom_of(y), y);
                        if g.bottoms@.contains(bottom_of(y)) {
                            let m = choose|m: int| 0 <= m < g.bottoms@.len() && g.bottoms@[m] == bottom_of(y);
                        }
                    }
                }
                self.groups.push(g);
                proof {
                    assert forall|y: u64| #[trigger] self.has(y) == (old(self).has(y) || y == x) by {
                        lemma_have_push(old_groups, g, y);
                    }
                }
            },
            Some(i) => {
                let mut g = self.groups.remove(i);
                let ghost og = g;
                g.bottoms.push(bottom);
                if g.capacity < g.bottoms.len() {
                    g.capacity = g.bottoms.len();
                }
                self.groups.insert(i, g);
                proof {
                    assert(self.groups@ =~= old_groups.update(i as int, g));
                    lemma_have_split(old_groups, i as int, x);
                    assert(!og.bottoms@.contains(bottom));
                    assert forall|y: u64| #[trigger] self.has(y) == (old(self).has(y) || y == x) by {
                        lemma_have_update(old_groups, i as int, g, y);
                        lemma_have_split(old_groups, i as int, y);
                        lemma_push_contains(og.bottoms@, bottom, bottom_of(y));
                        lemma_join_split(top_of(y), bottom_of(y), y);
                    }
                    if old(self).wf() {
                        assert(og.bottoms@.no_duplicates());
                        assert forall|p: int, q: int| 0 <= p < q < g.bottoms@.len() implies g.bottoms@[p] != g.bottoms@[q] by {
                            assert(og.bottoms@[p] == g.bottoms@[p]);
                            if q < g.bottoms@.len() - 1 {
                                assert(og.bottoms@[q] == g.bottoms@[q]);
                            } else {
                                assert(og.bottoms@.contains(g.bottoms@[p]));
                            }
                        }
                    }
                }
            },
        }
        true
    }

    /// Removes `x`; returns whether it was there. Groups left empty go.
    pub fn remove(&mut self, x: &u64) -> (r: bool)
        ensures
            old(self).wf() ==> final(self).wf(),
            r == old(self).has(*x),
            forall|y: u64| #[trigger] final(self).has(y) == (old(self).has(y) && y != *x),
    {
        let (top, bottom) = split_value(*x);
        proof {
            lemma_join_split(top, bottom, *x);
        }
        let ghost old_groups = self.groups@;
        let ghost was_wf = old(self).wf();
        let mut kept: Vec<BottomGroup> = Vec::new();
        let mut removed = false;
        let mut i: usize = 0;
        while i < self.groups.len()
            invariant
                0 <= i <= self.groups@.len(),
                self.groups@ == old_groups,
                was_wf == (RawBoardSet { groups: self.groups }).wf(),
                top == top_of(*x),
                bottom == bottom_of(*x),
                removed == groups_have(old_groups.subrange(0, i as int), *x),
                forall|y: u64| #[trigger] groups_have(kept@, y) == (groups_have(old_groups.subrange(0, i as int), y) && y != *x),
                forall|k: int| 0 <= k < kept@.len() ==> exists|m: int| 0 <= m < i && (#[trigger] kept@[k]).top == old_groups[m].top,
                was_wf ==> (RawBoardSet { groups: kept }).wf(),
            decreases self.groups@.len() - i,
        {
            let ghost before = kept@;
            let gi = &self.groups[i];
            let mut g = BottomGroup { top: gi.top, bottoms: Vec::new(), capacity: gi.capacity };
            let mut j: usize = 0;
            while j < gi.bottoms.len()
                invariant
                    0 <= j <= gi.bottoms@.len(),
                    g.top == gi.top,
                    g.capacity == gi.capacity,
                    g.bottoms@ == gi.bottoms@.subrange(0, j as int),
                decreases gi.bottoms@.len() - j,
            {
                g.bottoms.push(gi.bottoms[j]);
                proof {
                    assert(g.bottoms@ =~= gi.bottoms@.subrange(0, j + 1));
                }
                j += 1;
            }
            proof {
                assert(g.bottoms@ =~= gi.bottoms@);
            }
            let ghost og = g;
            let mut hit = false;
            if g.top == top {
                hit = remove_bottom_any(&mut g.bottoms, bottom);
            }
            proof {
                lemma_have_prefix_step(old_groups, i as int, *x);
                assert forall|y: u64| y != *x implies #[trigger] group_has(g, y) == group_has(og, y) by {
                    lemma_join_split(top_of(y), bottom_of(y), y);
                    lemma_join_split(top, bottom, *x);
                    if g.top == top && top_of(y) == top {
                        assert(bottom_of(y) != bottom);
                    }
                }
                assert(!group_has(g, *x));
                assert(hit == group_has(og, *x));
            }
            if g.bottoms.len() != 0 {
                kept.push(g);
                proof {
                    assert forall|y: u64| #[trigger] groups_have(kept@, y) == (groups_have(old_groups.subrange(0, i + 1), y) && y != *x) by {
                        lemma_have_push(before, g, y);
                        lemma_have_prefix_step(old_groups, i as int, y);
                    }
                    assert forall|k: int| 0 <= k < kept@.len() implies exists|m: int| 0 <= m < i + 1 && (#[trigger] kept@[k]).top == old_groups[m].top by {
                        if k < before.len() {
                            assert(kept@[k] == before[k]);
                            let m = choose|m: int| 0 <= m < i && before[k].top == old_groups[m].top;
                            assert(0 <= m < i + 1 && kept@[k].top == old_groups[m].top);
                        } else {
                            assert(kept@[k].top == old_groups[i as int].top);
                        }
                    }
                    if was_wf {
                        assert forall|p: int, q: int| 0 <= p < q < kept@.len() implies #[trigger] kept@[p].top != #[trigger] kept@[q].top by {
                            assert(kept@[p] == before[p]);
                            if q == kept@.len() - 1 {
                                let m = choose|m: int| 0 <= m < i && before[p].top == old_groups[m].top;
                                assert(old_groups[m].top != old_groups[i as int].top);
                            } else {
                                assert(kept@[q] == before[q]);
                            }
                        }
                        assert forall|k: int| 0 <= k < kept@.len() implies (#[trigger] kept@[k]).bottoms@.no_duplicates()
                            && kept@[k].bottoms@.len() <= kept@[k].capacity by {
                            if k < before.len() {
                                assert(kept@[k] == before[k]);
                            } else {
                                assert(old_groups[i as int].bottoms@.no_duplicates());
                            }
                        }
                    }
                }
            } else {
                proof {
                    assert forall|y: u64| #[trigger] groups_have(kept@, y) == (groups_have(old_groups.subrange(0, i + 1), y) && y != *x) by {
                        lemma_have_prefix_step(old_groups, i as int, y);
                        if group_has(g, y) {
                            assert(g.bottoms@.contains(bottom_of(y)));
                        }
                    }
                }
            }
            removed = removed || hit;
            i += 1;
        }
        proof {
            assert(old_groups.subrange(0, i as int) =~= old_groups);
        }
        self.groups = kept;
        removed
    }
}

/// `v` without any `b`; returns whether `b` was there.
fn remove_bottom_any(v: &mut Vec<u32>, b: u32) -> (r: bool)
    ensures
        r == old(v)@.contains(b),
        old(v)@.no_duplicates() ==> final(v)@.no_duplicates(),
        final(v)@.len() <= old(v)@.len(),
        forall|z: u32| #[trigger] final(v)@.contains(z) == (old(v)@.contains(z) && z != b),
{
    let ghost nd = old(v)@.no_duplicates();
    let mut w: Vec<u32> = Vec::new();
    let mut found = false;
    let mut i: usize = 0;
    while i < v.len()
        invariant
            0 <= i <= v@.len(),
            v@ == old(v)@,
            nd == v@.no_duplicates(),
            nd ==> w@.no_duplicates(),
            w@.len() <= i,
            found == prefix_has(v@, i as int, b),
            forall|z: u32| #[trigger] w@.contains(z) == (prefix_has(v@, i as int, z) && z != b),
        decreases v@.len() - i,
    {
        let x = v[i];
        proof {
            lemma_prefix_step(v@, i as int, b);
            assert forall|z: u32| #[trigger] prefix_has(v@, i + 1, z) == (prefix_has(v@, i as int, z) || v@[i as int] == z) by {
                lemma_prefix_step(v@, i as int, z);
            }
            if nd && w@.contains(x) {
                let m = choose|m: int| 0 <= m < i && #[trigger] v@[m] == x;
                assert(v@[m] == v@[i as int]);
            }
        }
        if x != b {
            let ghost before = w@;
            w.push(x);
            proof {
                assert forall|z: u32| #[trigger] w@.contains(z) == (prefix_has(v@, i + 1, z) && z != b) by {
                    lemma_push_contains(before, x, z);
                }
                if nd {
                    assert forall|p: int, q: int| 0 <= p < q < w@.len() implies w@[p] != w@[q] by {
                        assert(before[p] == w@[p]);
                        if q == w@.len() - 1 {
                            assert(before.contains(w@[p]));
                        } else {
                            assert(before[q] == w@[q]);
                        }
                    }
                }
            }
        } else {
            found = true;
        }
        i += 1;
    }
    proof {
        lemma_prefix_full(v@, b);
        assert forall|z: u32| #[trigger] w@.contains(z) == (old(v)@.contains(z) && z != b) by {
            lemma_prefix_full(v@, z);
        }
    }
    *v = w;
    found
}

/// Whether `v` holds `x`.
fn vec_contains(v: &Vec<u32>, x: u32) -> (r: bool)
    ensures
        r == v@.contains(x),
{
    let mut i: usize = 0;
    while i < v.len()
        invariant
            0 <= i <= v@.len(),
            forall|k: int| 0 <= k < i ==> v@[k] != x,
        decreases v@.len() - i,
    {
        if v[i] == x {
            return true;
        }
        i += 1;
    }
    false
}

/// Every value held by `groups` once, group by group.
fn collect_values(groups: &Vec<BottomGroup>) -> (r: Vec<u64>)
    ensures
        forall|y: u64| #[trigger] r@.contains(y) == groups_have(groups@, y),
        tops_distinct(groups@) && (forall|i: int|
            0 <= i < groups@.len() ==> (#[trigger] groups@[i]).bottoms@.no_duplicates())
            ==> r@.no_duplicates(),
        r@.len() == count_upto(groups@, groups@.len() as int),
{
    let ghost wf = tops_distinct(groups@) && (forall|i: int|
        0 <= i < groups@.len() ==> (#[trigger] groups@[i]).bottoms@.no_duplicates());
    let mut r: Vec<u64> = Vec::new();
    let mut i: usize = 0;
    while i < groups.len()
        invariant
            0 <= i <= groups@.len(),
            wf == (tops_distinct(groups@) && (forall|i: int|
                0 <= i < groups@.len() ==> (#[trigger] groups@[i]).bottoms@.no_duplicates())),
            wf ==> r@.no_duplicates(),
            r@.len() == count_upto(groups@, i as int),
            forall|y: u64| #[trigger] r@.contains(y) == groups_have(groups@.subrange(0, i as int), y),
        decreases groups@.len() - i,
    {
        let top = groups[i].top;
        let bottoms = &groups[i].bottoms;
        let ghost base = r@;
        let mut j: usize = 0;
        while j < bottoms.len()
            invariant
                0 <= i < groups@.len(),
                0 <= j <= bottoms@.len(),
                bottoms@ == groups@[i as int].bottoms@,
                top == groups@[i as int].top,
                wf == (tops_distinct(groups@) && (forall|i: int|
                    0 <= i < groups@.len() ==> (#[trigger] groups@[i]).bottoms@.no_duplicates())),
                wf ==> r@.no_duplicates(),
                r@.len() == base.len() + j,
                forall|y: u64| #[trigger] base.contains(y) == groups_have(groups@.subrange(0, i as int), y),
                forall|y: u64| #[trigger] r@.contains(y) == (base.contains(y) || (top_of(y) == top
                    && prefix_has(bottoms@, j as int, bottom_of(y)))),
            decreases bottoms@.len() - j,
        {
            let b = bottoms[j];
            let v = join_value(top, b);
            proof {
                lemma_join_split(top, b, v);
                if wf && r@.contains(v) {
                    if base.contains(v) {
                        let k = choose|k: int| 0 <= k < i && group_has(#[trigger] groups@.subrange(0, i as int)[k], v);
                        assert(groups@[k].top != groups@[i as int].top);
                    } else {
                        let m = choose|m: int| 0 <= m < j && #[trigger] bottoms@[m] == b;
                        assert(groups@[i as int].bottoms@.no_duplicates());
                        assert(bottoms@[m] == bottoms@[j as int]);
                    }
                }
            }
            let ghost before = r@;
            r.push(v);
            proof {
                assert forall|y: u64| #[trigger] r@.contains(y) == (base.contains(y) || (top_of(y) == top
                    && prefix_has(bottoms@, j + 1, bottom_of(y)))) by {
                    lemma_push_contains(before, v, y);
                    lemma_prefix_step(bottoms@, j as int, bottom_of(y));
                    lemma_join_split(top_of(y), bottom_of(y), y);
                }
                if wf {
                    assert forall|p: int, q: int| 0 <= p < q < r@.len() implies r@[p] != r@[q] by {
                        assert(before[p] == r@[p]);
                        if q < r@.len() - 1 {
                            assert(before[q] == r@[q]);
                        } else {
                            assert(before.contains(r@[p]));
                        }
                    }
                }
            }
            j += 1;
        }
        proof {
            assert forall|y: u64| #[trigger] r@.contains(y) == groups_have(groups@.subrange(0, i + 1), y) by {
                lemma_prefix_full(bottoms@, bottom_of(y));
                lemma_have_prefix_step(groups@, i as int, y);
            }
        }
        i += 1;
    }
    proof {
        assert(groups@.subrange(0, i as int) =~= groups@);
    }
    r
}

impl RawBoardSet {
    /// Removes `x` and returns it, if it was there.
    pub fn take(&mut self, x: &u64) -> (r: Option<u64>)
        ensures
            old(self).wf() ==> final(self).wf(),
            r == (if old(self).has(*x) {
                Some(*x)
            } else {
                None
            }),
            forall|y: u64| #[trigger] final(self).has(y) == (old(self).has(y) && y != *x),
    {
        if self.remove(x) {
            Some(*x)
        } else {
            None
        }
    }

    /// Removes every value and every group.
    pub fn clear(&mut self)
        ensures
            final(self).wf(),
            final(self).groups@.len() == 0,
            forall|y: u64| !#[trigger] final(self).has(y),
    {
        self.groups.clear();
    }

    /// The number of values (counted group by group).
    pub fn len(&self) -> (r: usize)
        ensures
            r == self.count(),
    {
        let values = collect_values(&self.groups);
        values.len()
    }

    /// Whether the set holds no value.
    pub fn is_empty(&self) -> (r: bool)
        ensures
            r == (forall|y: u64| !#[trigger] self.has(y)),
    {
        let mut i: usize = 0;
        while i < self.groups.len()
            invariant
                0 <= i <= self.groups@.len(),
                forall|k: int| 0 <= k < i ==> (#[trigger] self.groups@[k]).bottoms@.len() == 0,
            decreases self.groups@.len() - i,
        {
            if self.groups[i].bottoms.len() != 0 {
                proof {
                    let g = self.groups@[i as int];
                    let y = join(g.top, g.bottoms@[0]);
                    lemma_join_split(g.top, g.bottoms@[0], y);
                    assert(group_has(g, y));
                    assert(self.has(y));
                }
                return false;
            }
            i += 1;
        }
        proof {
            assert forall|y: u64| !#[trigger] self.has(y) by {
                if self.has(y) {
                    let k = choose|k: int| 0 <= k < self.groups@.len() && group_has(#[trigger] self.groups@[k], y);
                    assert(self.groups@[k].bottoms@.len() == 0);
                }
            }
        }
        true
    }

    /// Every value of the set once, group by group.
    pub fn to_vec(&self) -> (r: Vec<u64>)
        ensures
            forall|y: u64| #[trigger] r@.contains(y) == self.has(y),
            r@.len() == self.count(),
            self.wf() ==> r@.no_duplicates(),
    {
        collect_values(&self.groups)
    }
}

/// A cursor over a list of values.
#[derive(Debug, Clone)]
pub struct RawIter {
    pub items: Vec<u64>,
    pub pos: usize,
}

impl RawIter {
    pub fn new(items: Vec<u64>) -> (r: Self)
        ensures
            r.items@ == items@,
            r.pos == 0,
            r.rest() == items@,
    {
        let r = RawIter { items, pos: 0 };
        proof {
            assert(r.rest() =~= r.items@);
        }
        r
    }

    /// The values not yet handed out.
    pub open spec fn rest(&self) -> Seq<u64> {
        self.items@.subrange(self.pos as int, self.items@.len() as int)
    }

    /// The next value, if any.
    pub fn next(&mut self) -> (r: Option<u64>)
        requires
            old(self).pos <= old(self).items@.len(),
        ensures
            final(self).items@ == old(self).items@,
            final(self).pos <= final(self).items@.len(),
            old(self).pos == old(self).items@.len() ==> r.is_none() && final(self).pos == old(self).pos,
            old(self).pos < old(self).items@.len() ==> r == Some(old(self).items@[old(self).pos as int])
                && final(self).pos == old(self).pos + 1,
    {
        if self.pos < self.items.len() {
            let x = self.items[self.pos];
            self.pos = self.pos + 1;
            Some(x)
        } else {
            None
        }
    }
}

/// The values of a set that the other set lacks.
pub type RawDifference = RawIter;

/// The values that exactly one of two sets holds.
pub type RawSymmetricDifference = RawIter;

/// The values that both sets hold.
pub type RawIntersection = RawIter;

/// The values that either set holds.
pub type RawUnion = RawIter;

/// The values taken out of a set.
pub type RawDrain = RawIter;

/// The values of a set, by value.
pub type RawIntoIter = RawIter;

impl RawBoardSet {
    /// The set of the given values.
    pub fn from_values(items: &Vec<u64>) -> (r: Self)
        ensures
            r.wf(),
            forall|y: u64| #[trigger] r.has(y) == items@.contains(y),
    {
        let mut r = RawBoardSet::new();
        r.extend_from(items);
        proof {
            assert forall|y: u64| #[trigger] r.has(y) == items@.contains(y) by {}
        }
        r
    }

    /// Inserts every value of `items`.
    pub fn extend_from(&mut self, items: &Vec<u64>)
        ensures
            old(self).wf() ==> final(self).wf(),
            forall|y: u64| #[trigger] final(self).has(y) == (old(self).has(y) || items@.contains(y)),
    {
        let mut i: usize = 0;
        while i < items.len()
            invariant
                0 <= i <= items@.len(),
                old(self).wf() ==> self.wf(),
                forall|y: u64| #[trigger] self.has(y) == (old(self).has(y) || prefix_has(items@, i as int, y)),
            decreases items@.len() - i,
        {
            self.insert(items[i]);
            proof {
                assert forall|y: u64| #[trigger] self.has(y) == (old(self).has(y) || prefix_has(items@, i + 1, y)) by {
                    lemma_prefix_step(items@, i as int, y);
                }
            }
            i += 1;
        }
        proof {
            assert forall|y: u64| #[trigger] self.has(y) == (old(self).has(y) || items@.contains(y)) by {
                lemma_prefix_full(items@, y);
            }
        }
    }

    /// Inserts the values that `iter` has not yet handed out.
    pub fn extend(&mut self, iter: RawIter)
        requires
            iter.pos <= iter.items@.len(),
        ensures
            old(self).wf() ==> final(self).wf(),
            forall|y: u64| #[trigger] final(self).has(y) == (old(self).has(y) || iter.rest().contains(y)),
    {
        let mut rest: Vec<u64> = Vec::new();
        let mut i: usize = iter.pos;
        while i < iter.items.len()
            invariant
                iter.pos <= i <= iter.items@.len(),
                rest@ == iter.items@.subrange(iter.pos as int, i as int),
            decreases iter.items@.len() - i,
        {
            rest.push(iter.items[i]);
            proof {
                assert(rest@ =~= iter.items@.subrange(iter.pos as int, i + 1));
            }
            i += 1;
        }
        self.extend_from(&rest);
    }

    /// The set of the values that `iter` has not yet handed out.
    pub fn from_iter(iter: RawIter) -> (r: Self)
        requires
            iter.pos <= iter.items@.len(),
        ensures
            r.wf(),
            forall|y: u64| #[trigger] r.has(y) == iter.rest().contains(y),
    {
        let mut r = RawBoardSet::new();
        r.extend(iter);
        r
    }

    /// A cursor over every value of the set.
    pub fn iter(&self) -> (r: RawIter)
        ensures
            r.pos == 0,
            self.wf() ==> r.items@.no_duplicates(),
            forall|y: u64| #[trigger] r.items@.contains(y) == self.has(y),
            r.rest() == r.items@,
    {
        let r = RawIter::new(self.to_vec());
        proof {
            assert(r.rest() =~= r.items@);
        }
        r
    }

    /// Whether every value of `self` is in `other`.
    pub fn is_subset(&self, other: &RawBoardSet) -> (r: bool)
        ensures
            r == (forall|y: u64| self.has(y) ==> #[trigger] other.has(y)),
    {
        let items = self.to_vec();
        let mut i: usize = 0;
        while i < items.len()
            invariant
                0 <= i <= items@.len(),
                forall|k: int| 0 <= k < i ==> other.has(#[trigger] items@[k]),
                forall|y: u64| #[trigger] items@.contains(y) == self.has(y),
            decreases items@.len() - i,
        {
            if !other.contains(&items[i]) {
                proof {
                    assert(items@.contains(items@[i as int]));
                    assert(self.has(items@[i as int]) && !other.has(items@[i as int]));
                }
                return false;
            }
            i += 1;
        }
        proof {
            assert forall|y: u64| self.has(y) implies #[trigger] other.has(y) by {
                assert(items@.contains(y));
                let k = choose|k: int| 0 <= k < items@.len() && items@[k] == y;
            }
        }
        true
    }

    /// Whether every value of `other` is in `self`.
    pub fn is_superset(&self, other: &RawBoardSet) -> (r: bool)
        ensures
            r == (forall|y: u64| other.has(y) ==> #[trigger] self.has(y)),
    {
        other.is_subset(self)
    }

    /// Whether no value is in both sets.
    pub fn is_disjoint(&self, other: &RawBoardSet) -> (r: bool)
        ensures
            r == (forall|y: u64| !(#[trigger] self.has(y) && other.has(y))),
    {
        let items = self.to_vec();
        let mut i: usize = 0;
        while i < items.len()
            invariant
                0 <= i <= items@.len(),
                forall|k: int| 0 <= k < i ==> !other.has(#[trigger] items@[k]),
                forall|y: u64| #[trigger] items@.contains(y) == self.has(y),
            decreases items@.len() - i,
        {
            if other.contains(&items[i]) {
                proof {
                    assert(items@.contains(items@[i as int]));
                    assert(self.has(items@[i as int]) && other.has(items@[i as int]));
                }
                return false;
            }
            i += 1;
        }
        proof {
            assert forall|y: u64| !(#[trigger] self.has(y) && other.has(y)) by {
                if self.has(y) {
                    assert(items@.contains(y));
                    let k = choose|k: int| 0 <= k < items@.len() && items@[k] == y;
                }
            }
        }
        true
    }

    /// The values of `self` that `other` lacks (`keep_common` false), or
    /// those it holds too (`keep_common` true), in the order of `self`.
    fn filter_by(&self, other: &RawBoardSet, keep_common: bool) -> (r: Vec<u64>)
        ensures
            self.wf() ==> r@.no_duplicates(),
            forall|y: u64| #[trigger] r@.contains(y) == (self.has(y) && other.has(y) == keep_common),
    {
        let items = self.to_vec();
        let mut r: Vec<u64> = Vec::new();
        let mut i: usize = 0;
        while i < items.len()
            invariant
                0 <= i <= items@.len(),
                self.wf() ==> items@.no_duplicates(),
                self.wf() ==> r@.no_duplicates(),
                items@.len() == self.count(),
                forall|y: u64| #[trigger] r@.contains(y) == (prefix_has(items@, i as int, y) && other.has(y) == keep_common),
            decreases items@.len() - i,
        {
            let x = items[i];
            proof {
                assert forall|y: u64| #[trigger] prefix_has(items@, i + 1, y) == (prefix_has(items@, i as int, y) || items@[i as int] == y) by {
                    lemma_prefix_step(items@, i as int, y);
                }
                if self.wf() && r@.contains(x) {
                    let m = choose|m: int| 0 <= m < i && #[trigger] items@[m] == x;
                    assert(items@[m] == items@[i as int]);
                }
            }
            if other.contains(&x) == keep_common {
                let ghost before = r@;
                r.push(x);
                proof {
                    assert forall|y: u64| #[trigger] r@.contains(y) == (prefix_has(items@, i + 1, y) && other.has(y) == keep_common) by {
                        lemma_push_contains(before, x, y);
                    }
                    if self.wf() {
                        assert forall|p: int, q: int| 0 <= p < q < r@.len() implies r@[p] != r@[q] by {
                            assert(before[p] == r@[p]);
                            if q < r@.len() - 1 {
                                assert(before[q] == r@[q]);
                            } else {
                                assert(before.contains(r@[p]));
                            }
                        }
                    }
                }
            }
            i += 1;
        }
        proof {
            assert forall|y: u64| #[trigger] r@.contains(y) == (self.has(y) && other.has(y) == keep_common) by {
                lemma_prefix_full(items@, y);
            }
        }
        r
    }

    /// The values of `self` that `other` lacks.
    pub fn difference(&self, other: &RawBoardSet) -> (r: RawDifference)
        ensures
            r.pos == 0,
            self.wf() ==> r.items@.no_duplicates(),
            forall|y: u64| #[trigger] r.items@.contains(y) == (self.has(y) && !other.has(y)),
    {
        RawIter::new(self.filter_by(other, false))
    }

    /// The values that both sets hold.
    pub fn intersection(&self, other: &RawBoardSet) -> (r: RawIntersection)
        ensures
            r.pos == 0,
            self.wf() ==> r.items@.no_duplicates(),
            forall|y: u64| #[trigger] r.items@.contains(y) == (self.has(y) && other.has(y)),
    {
        RawIter::new(self.filter_by(other, true))
    }

    /// The values that exactly one of the sets holds.
    pub fn symmetric_difference(&self, other: &RawBoardSet) -> (r: RawSymmetricDifference)
        ensures
            r.pos == 0,
            forall|y: u64| #[trigger] r.items@.contains(y) == (self.has(y) != other.has(y)),
    {
        let mut a = self.filter_by(other, false);
        let ghost sa = a@;
        let mut b = other.filter_by(self, false);
        let ghost sb = b@;
        a.append(&mut b);
        proof {
            assert forall|y: u64| #[trigger] a@.contains(y) == (self.has(y) != other.has(y)) by {
                if a@.contains(y) {
                    let m = choose|m: int| 0 <= m < a@.len() && a@[m] == y;
                    if m < sa.len() {
                        assert(sa[m] == y);
                    } else {
                        assert(sb[m - sa.len()] == y);
                    }
                }
                if sa.contains(y) {
                    let m = choose|m: int| 0 <= m < sa.len() && sa[m] == y;
                    assert(a@[m] == y);
                }
                if sb.contains(y) {
                    let m = choose|m: int| 0 <= m < sb.len() && sb[m] == y;
                    assert(a@[m + sa.len()] == y);
                }
            }
        }
        RawIter::new(a)
    }

    /// The values that either set holds.
    pub fn union(&self, other: &RawBoardSet) -> (r: RawUnion)
        ensures
            r.pos == 0,
            forall|y: u64| #[trigger] r.items@.contains(y) == (self.has(y) || other.has(y)),
    {
        let mut a = self.filter_by(other, false);
        let ghost sa = a@;
        let mut b = other.to_vec();
        let ghost sb = b@;
        a.append(&mut b);
        proof {
            assert forall|y: u64| #[trigger] a@.contains(y) == (self.has(y) || other.has(y)) by {
                if a@.contains(y) {
                    let m = choose|m: int| 0 <= m < a@.len() && a@[m] == y;
                    if m < sa.len() {
                        assert(sa[m] == y);
                    } else {
                        assert(sb[m - sa.len()] == y);
                    }
                }
                if sa.contains(y) {
                    let m = choose|m: int| 0 <= m < sa.len() && sa[m] == y;
                    assert(a@[m] == y);
                }
                if sb.contains(y) {
                    let m = choose|m: int| 0 <= m < sb.len() && sb[m] == y;
                    assert(a@[m + sa.len()] == y);
                }
            }
        }
        RawIter::new(a)
    }
}

impl RawBoardSet {
    /// Adds every value of `set`.
    pub fn absorb(&mut self, set: RawBoardSet)
        ensures
            old(self).wf() ==> final(self).wf(),
            forall|y: u64| #[trigger] final(self).has(y) == (old(self).has(y) || set.has(y)),
    {
        let items = set.to_vec();
        self.extend_from(&items);
    }

    /// Empties every group, keeping the groups and their capacities.
    fn empty_groups(&mut self)
        ensures
            old(self).wf() ==> final(self).wf(),
            forall|y: u64| !#[trigger] final(self).has(y),
            final(self).groups@.len() == old(self).groups@.len(),
            forall|k: int|
                0 <= k < final(self).groups@.len() ==> (#[trigger] final(self).groups@[k]).top
                    == old(self).groups@[k].top && final(self).groups@[k].capacity
                    == old(self).groups@[k].capacity,
    {
        let mut emptied: Vec<BottomGroup> = Vec::new();
        let mut i: usize = 0;
        while i < self.groups.len()
            invariant
                0 <= i <= self.groups@.len(),
                self.groups@ == old(self).groups@,
                emptied@.len() == i,
                forall|k: int|
                    0 <= k < i ==> (#[trigger] emptied@[k]).top == old(self).groups@[k].top
                        && emptied@[k].capacity == old(self).groups@[k].capacity
                        && emptied@[k].bottoms@.len() == 0,
            decreases self.groups@.len() - i,
        {
            emptied.push(
                BottomGroup {
                    top: self.groups[i].top,
                    bottoms: Vec::new(),
                    capacity: self.groups[i].capacity,
                },
            );
            i += 1;
        }
        self.groups = emptied;
        proof {
            assert forall|y: u64| !#[trigger] self.has(y) by {
                if self.has(y) {
                    let k = choose|k: int| 0 <= k < self.groups@.len() && group_has(#[trigger] self.groups@[k], y);
                    assert(self.groups@[k].bottoms@.len() == 0);
                }
            }
            if old(self).wf() {
                assert forall|p: int, q: int| 0 <= p < q < self.groups@.len() implies #[trigger] self.groups@[p].top
                    != #[trigger] self.groups@[q].top by {
                    assert(old(self).groups@[p].top != old(self).groups@[q].top);
                }
                assert forall|k: int| 0 <= k < self.groups@.len() implies (#[trigger] self.groups@[k]).bottoms@.no_duplicates()
                    && self.groups@[k].bottoms@.len() <= self.groups@[k].capacity by {}
            }
        }
    }

    /// Takes every value out, keeping the groups and their capacities.
    pub fn drain(&mut self) -> (r: RawDrain)
        ensures
            old(self).wf() ==> final(self).wf(),
            r.pos == 0,
            forall|y: u64| #[trigger] r.items@.contains(y) == old(self).has(y),
            old(self).wf() ==> r.items@.no_duplicates(),
            forall|y: u64| !#[trigger] final(self).has(y),
            final(self).groups@.len() == old(self).groups@.len(),
            forall|k: int|
                0 <= k < final(self).groups@.len() ==> (#[trigger] final(self).groups@[k]).top
                    == old(self).groups@[k].top && final(self).groups@[k].capacity
                    == old(self).groups@[k].capacity,
    {
        let items = self.to_vec();
        self.empty_groups();
        RawIter::new(items)
    }

    /// Moves every value of `set` into `self`; `set` keeps its groups, empty.
    pub fn absorb_drained(&mut self, set: &mut RawBoardSet)
        ensures
            old(self).wf() ==> final(self).wf(),
            old(set).wf() ==> final(set).wf(),
            forall|y: u64| #[trigger] final(self).has(y) == (old(self).has(y) || old(set).has(y)),
            forall|y: u64| !#[trigger] final(set).has(y),
    {
        let drained = set.drain();
        self.extend_from(&drained.items);
    }

    /// Keeps only the values on which `f` holds.
    pub fn retain<F: Fn(u64) -> bool>(&mut self, f: F)
        requires
            forall|x: u64| #[trigger] f.requires((x,)),
        ensures
            old(self).wf() ==> final(self).wf(),
            forall|y: u64| #[trigger] final(self).has(y) ==> old(self).has(y) && f.ensures((y,), true),
            forall|y: u64| old(self).has(y) && !#[trigger] final(self).has(y) ==> f.ensures((y,), false),
    {
        let ghost old_groups = self.groups@;
        let ghost was_wf = old(self).wf();
        let mut kept: Vec<BottomGroup> = Vec::new();
        let mut i: usize = 0;
        while i < self.groups.len()
            invariant
                0 <= i <= self.groups@.len(),
                self.groups@ == old_groups,
                was_wf == (RawBoardSet { groups: self.groups }).wf(),
                forall|x: u64| #[trigger] f.requires((x,)),
                kept@.len() == i,
                forall|k: int| 0 <= k < i ==> (#[trigger] kept@[k]).top == old_groups[k].top
                    && kept@[k].capacity == old_groups[k].capacity
                    && (was_wf ==> kept@[k].bottoms@.no_duplicates())
                    && kept@[k].bottoms@.len() <= old_groups[k].bottoms@.len()
                    && (forall|y: u64| #[trigger] group_has(kept@[k], y) ==> group_has(old_groups[k], y) && f.ensures((y,), true))
                    && (forall|y: u64| group_has(old_groups[k], y) && !#[trigger] group_has(kept@[k], y) ==> f.ensures((y,), false)),
            decreases self.groups@.len() - i,
        {
            let top = self.groups[i].top;
            let bottoms = &self.groups[i].bottoms;
            let mut nb: Vec<u32> = Vec::new();
            let mut j: usize = 0;
            while j < bottoms.len()
                invariant
                    0 <= j <= bottoms@.len(),
                    0 <= i < old_groups.len(),
                    bottoms@ == old_groups[i as int].bottoms@,
                    top == old_groups[i as int].top,
                    was_wf ==> bottoms@.no_duplicates(),
                    was_wf ==> nb@.no_duplicates(),
                    nb@.len() <= j,
                    forall|x: u64| #[trigger] f.requires((x,)),
                    forall|z: u32| #[trigger] nb@.contains(z) ==> prefix_has(bottoms@, j as int, z) && f.ensures((join(top, z),), true),
                    forall|z: u32| prefix_has(bottoms@, j as int, z) && !#[trigger] nb@.contains(z) ==> f.ensures((join(top, z),), false),
                decreases bottoms@.len() - j,
            {
                let b = bottoms[j];
                let keep = f(join_value(top, b));
                proof {
                    assert forall|z: u32| #[trigger] prefix_has(bottoms@, j + 1, z) == (prefix_has(bottoms@, j as int, z) || bottoms@[j as int] == z) by {
                        lemma_prefix_step(bottoms@, j as int, z);
                    }
                    if was_wf && nb@.contains(b) {
                        let m = choose|m: int| 0 <= m < j && #[trigger] bottoms@[m] == b;
                        assert(bottoms@[m] == bottoms@[j as int]);
                    }
                }
                if keep {
                    let ghost before = nb@;
                    nb.push(b);
                    proof {
                        assert forall|z: u32| #[trigger] nb@.contains(z) == (before.contains(z) || z == b) by {
                            lemma_push_contains(before, b, z);
                        }
                        if was_wf {
                            assert forall|p: int, q: int| 0 <= p < q < nb@.len() implies nb@[p] != nb@[q] by {
                                assert(before[p] == nb@[p]);
                                if q == nb@.len() - 1 {
                                    assert(before.contains(nb@[p]));
                                } else {
                                    assert(before[q] == nb@[q]);
                                }
                            }
                        }
                    }
                }
                j += 1;
            }
            let g = BottomGroup { top, bottoms: nb, capacity: self.groups[i].capacity };
            proof {
                lemma_have_split(old_groups, i as int, 0);
                assert forall|y: u64| #[trigger] group_has(g, y) implies group_has(old_groups[i as int], y) && f.ensures((y,), true) by {
                    lemma_join_split(top_of(y), bottom_of(y), y);
                    if group_has(g, y) {
                        lemma_prefix_full(bottoms@, bottom_of(y));
                    }
                }
                assert forall|y: u64| group_has(old_groups[i as int], y) && !#[trigger] group_has(g, y) implies f.ensures((y,), false) by {
                    lemma_join_split(top_of(y), bottom_of(y), y);
                    lemma_prefix_full(bottoms@, bottom_of(y));
                }
                if was_wf {
                    assert(old_groups[i as int].bottoms@.no_duplicates());
                }
            }
            kept.push(g);
            i += 1;
        }
        self.groups = kept;
        proof {
            assert forall|y: u64| #[trigger] self.has(y) implies old(self).has(y) && f.ensures((y,), true) by {
                let k = choose|k: int| 0 <= k < self.groups@.len() && group_has(#[trigger] self.groups@[k], y);
                assert(group_has(old_groups[k], y));
            }
            assert forall|y: u64| old(self).has(y) && !#[trigger] self.has(y) implies f.ensures((y,), false) by {
                let k = choose|k: int| 0 <= k < old_groups.len() && group_has(#[trigger] old_groups[k], y);
                if !group_has(self.groups@[k], y) {
                } else {
                    assert(self.has(y));
                }
            }
            if was_wf {
                assert forall|p: int, q: int| 0 <= p < q < self.groups@.len() implies #[trigger] self.groups@[p].top
                    != #[trigger] self.groups@[q].top by {
                    assert(old_groups[p].top != old_groups[q].top);
                }
                assert forall|k: int| 0 <= k < self.groups@.len() implies (#[trigger] self.groups@[k]).bottoms@.no_duplicates()
                    && self.groups@[k].bottoms@.len() <= self.groups@[k].capacity by {
                    assert(old_groups[k].bottoms@.len() <= old_groups[k].capacity);
                }
            }
        }
    }

    /// Splits the set in two: `len_left` of its values (all, if it has
    /// fewer) go left and the others right.
    pub fn split(self, len_left: usize) -> (r: (Self, Self))
        ensures
            r.0.wf(),
            r.1.wf(),
            forall|y: u64| #[trigger] self.has(y) == (r.0.has(y) || r.1.has(y)),
            self.wf() ==> forall|y: u64| !(#[trigger] r.0.has(y) && r.1.has(y)),
            exists|s: Seq<u64>|
                s.len() == (if len_left <= self.count() {
                    len_left as nat
                } else {
                    self.count()
                }) && (self.wf() ==> s.no_duplicates()) && forall|y: u64| #[trigger] r.0.has(y) == s.contains(y),
    {
        let items = self.to_vec();
        let k = if len_left <= items.len() {
            len_left
        } else {
            items.len()
        };
        let mut left_items: Vec<u64> = Vec::new();
        let mut right_items: Vec<u64> = Vec::new();
        let mut i: usize = 0;
        while i < items.len()
            invariant
                0 <= i <= items@.len(),
                k <= items@.len(),
                left_items@ == items@.subrange(0, if i <= k { i as int } else { k as int }),
                right_items@ == items@.subrange(if i <= k { i as int } else { k as int }, i as int),
            decreases items@.len() - i,
        {
            if i < k {
                left_items.push(items[i]);
                proof {
                    assert(left_items@ =~= items@.subrange(0, i + 1));
                    assert(right_items@ =~= items@.subrange(i + 1, i + 1));
                }
            } else {
                right_items.push(items[i]);
                proof {
                    assert(right_items@ =~= items@.subrange(k as int, i + 1));
                }
            }
            i += 1;
        }
        let left = RawBoardSet::from_values(&left_items);
        let right = RawBoardSet::from_values(&right_items);
        proof {
            assert forall|y: u64| #[trigger] self.has(y) == (left.has(y) || right.has(y)) by {
                if items@.contains(y) {
                    let m = choose|m: int| 0 <= m < items@.len() && items@[m] == y;
                    if m < k {
                        assert(left_items@[m] == y);
                    } else {
                        assert(right_items@[m - k] == y);
                    }
                }
                if left_items@.contains(y) {
                    let m = choose|m: int| 0 <= m < left_items@.len() && left_items@[m] == y;
                    assert(items@[m] == y);
                }
                if right_items@.contains(y) {
                    let m = choose|m: int| 0 <= m < right_items@.len() && right_items@[m] == y;
                    assert(items@[m + k] == y);
                }
            }
            if self.wf() {
                assert forall|y: u64| !(#[trigger] left.has(y) && right.has(y)) by {
                    if left.has(y) && right.has(y) {
                        let m = choose|m: int| 0 <= m < left_items@.len() && left_items@[m] == y;
                        let q = choose|q: int| 0 <= q < right_items@.len() && right_items@[q] == y;
                        assert(items@[m] == items@[q + k]);
                    }
                }
                assert(left_items@.no_duplicates());
            }
            assert(left_items@.len() == k);
        }
        (left, right)
    }

    /// The room that each group has.
    pub fn capacity(&self) -> (r: Capacity)
        ensures
            r.entries@.len() == self.groups@.len(),
            forall|k: int|
                0 <= k < r.entries@.len() ==> #[trigger] r.entries@[k] == (
                    self.groups@[k].top,
                    self.groups@[k].capacity,
                ),
    {
        let mut entries: Vec<(u32, usize)> = Vec::new();
        let mut i: usize = 0;
        while i < self.groups.len()
            invariant
                0 <= i <= self.groups@.len(),
                entries@.len() == i,
                forall|k: int|
                    0 <= k < i ==> #[trigger] entries@[k] == (self.groups@[k].top, self.groups@[k].capacity),
            decreases self.groups@.len() - i,
        {
            entries.push((self.groups[i].top, self.groups[i].capacity));
            i += 1;
        }
        Capacity { entries }
    }

    /// Makes room for `n` more values under `top`.
    fn reserve_top(&mut self, top: u32, n: usize)
        ensures
            old(self).wf() ==> final(self).wf(),
            forall|y: u64| #[trigger] final(self).has(y) == old(self).has(y),
            exists|k: int| 0 <= k < final(self).groups@.len() && #[trigger] final(self).groups@[k].top == top,
    {
        let ghost old_groups = self.groups@;
        match self.find_group(top) {
            Some(i) => {
                let mut g = self.groups.remove(i);
                let len = g.bottoms.len();
                let want = if len <= usize::MAX - n { len + n } else { usize::MAX };
                if g.capacity < want {
                    g.capacity = want;
                }
                self.groups.insert(i, g);
                proof {
                    assert(self.groups@ =~= old_groups.update(i as int, g));
                    assert forall|y: u64| #[trigger] self.has(y) == old(self).has(y) by {
                        lemma_have_update(old_groups, i as int, g, y);
                        lemma_have_split(old_groups, i as int, y);
                    }
                    assert(self.groups@[i as int].top == top);
                }
            },
            None => {
                let g = BottomGroup { top, bottoms: Vec::new(), capacity: n };
                self.groups.push(g);
                proof {
                    assert forall|y: u64| #[trigger] self.has(y) == old(self).has(y) by {
                        lemma_have_push(old_groups, g, y);
                    }
                    assert(self.groups@[old_groups.len() as int].top == top);
                }
            },
        }
    }

    /// Makes room for the values that `additional` counts, top by top.
    pub fn reserve(&mut self, additional: Capacity)
        ensures
            old(self).wf() ==> final(self).wf(),
            forall|y: u64| #[trigger] final(self).has(y) == old(self).has(y),
    {
        let mut i: usize = 0;
        while i < additional.entries.len()
            invariant
                0 <= i <= additional.entries@.len(),
                old(self).wf() ==> self.wf(),
                forall|y: u64| #[trigger] self.has(y) == old(self).has(y),
            decreases additional.entries@.len() - i,
        {
            let (top, n) = additional.entries[i];
            self.reserve_top(top, n);
            i += 1;
        }
    }

    /// An empty set with room for the values that `capacity` counts.
    pub fn with_capacity(capacity: Capacity) -> (r: Self)
        ensures
            r.wf(),
            forall|y: u64| !#[trigger] r.has(y),
    {
        let mut r = RawBoardSet::new();
        r.reserve(capacity);
        r
    }

    /// Drops the empty groups and fits each capacity to its group.
    pub fn shrink_to_fit(&mut self)
        ensures
            old(self).wf() ==> final(self).wf(),
            forall|y: u64| #[trigger] final(self).has(y) == old(self).has(y),
            forall|k: int|
                0 <= k < final(self).groups@.len() ==> (#[trigger] final(self).groups@[k]).bottoms@.len() > 0
                    && final(self).groups@[k].capacity == final(self).groups@[k].bottoms@.len(),
    {
        let ghost old_groups = self.groups@;
        let ghost was_wf = old(self).wf();
        let mut kept: Vec<BottomGroup> = Vec::new();
        while self.groups.len() > 0
            invariant
                was_wf ==> (RawBoardSet { groups: self.groups }).wf(),
                was_wf ==> (RawBoardSet { groups: kept }).wf(),
                was_wf ==> forall|p: int, q: int|
                    0 <= p < kept@.len() && 0 <= q < self.groups@.len() ==> #[trigger] kept@[p].top
                        != #[trigger] self.groups@[q].top,
                forall|y: u64| #[trigger] old(self).has(y) == (groups_have(kept@, y) || groups_have(self.groups@, y)),
                forall|k: int|
                    0 <= k < kept@.len() ==> (#[trigger] kept@[k]).bottoms@.len() > 0
                        && kept@[k].capacity == kept@[k].bottoms@.len(),
            decreases self.groups@.len(),
        {
            let ghost before_groups = self.groups@;
            let ghost before_kept = kept@;
            let mut g = self.groups.remove(0);
            proof {
                assert(self.groups@ =~= before_groups.subrange(1, before_groups.len() as int));
                assert forall|y: u64| #[trigger] groups_have(before_groups, y) == (group_has(g, y) || groups_have(self.groups@, y)) by {
                    lemma_have_split(before_groups, 0, y);
                    if groups_have_except(before_groups, 0, y) {
                        let k = choose|k: int| 0 <= k < before_groups.len() && k != 0 && group_has(#[trigger] before_groups[k], y);
                        assert(group_has(self.groups@[k - 1], y));
                    }
                    if groups_have(self.groups@, y) {
                        let k = choose|k: int| 0 <= k < self.groups@.len() && group_has(#[trigger] self.groups@[k], y);
                        assert(group_has(before_groups[k + 1], y));
                    }
                }
            }
            if g.bottoms.len() > 0 {
                g.capacity = g.bottoms.len();
                kept.push(g);
                proof {
                    assert forall|y: u64| #[trigger] old(self).has(y) == (groups_have(kept@, y) || groups_have(self.groups@, y)) by {
                        lemma_have_push(before_kept, g, y);
                    }
                    if was_wf {
                        assert forall|p: int, q: int| 0 <= p < q < kept@.len() implies #[trigger] kept@[p].top != #[trigger] kept@[q].top by {
                            assert(kept@[p] == before_kept[p]);
                            if q < kept@.len() - 1 {
                                assert(kept@[q] == before_kept[q]);
                            } else {
                                assert(before_groups[0].top == g.top);
                            }
                        }
                        assert forall|k: int| 0 <= k < kept@.len() implies (#[trigger] kept@[k]).bottoms@.no_duplicates()
                            && kept@[k].bottoms@.len() <= kept@[k].capacity by {
                            if k < kept@.len() - 1 {
                                assert(kept@[k] == before_kept[k]);
                            } else {
                                assert(before_groups[0].bottoms@.no_duplicates());
                            }
                        }
                        assert forall|p: int, q: int|
                            0 <= p < kept@.len() && 0 <= q < self.groups@.len() implies #[trigger] kept@[p].top
                                != #[trigger] self.groups@[q].top by {
                            assert(self.groups@[q] == before_groups[q + 1]);
                            if p < kept@.len() - 1 {
                                assert(kept@[p] == before_kept[p]);
                            } else {
                                assert(before_groups[0].top != before_groups[q + 1].top);
                            }
                        }
                        assert forall|p: int, q: int| 0 <= p < q < self.groups@.len() implies #[trigger] self.groups@[p].top
                            != #[trigger] self.groups@[q].top by {
                            assert(self.groups@[p] == before_groups[p + 1]);
                            assert(self.groups@[q] == before_groups[q + 1]);
                        }
                    }
                }
            } else {
                proof {
                    assert forall|y: u64| #[trigger] old(self).has(y) == (groups_have(kept@, y) || groups_have(self.groups@, y)) by {
                        if group_has(g, y) {
                            assert(g.bottoms@.contains(bottom_of(y)));
                        }
                    }
                    if was_wf {
                        assert forall|p: int, q: int|
                            0 <= p < kept@.len() && 0 <= q < self.groups@.len() implies #[trigger] kept@[p].top
                                != #[trigger] self.groups@[q].top by {
                            assert(self.groups@[q] == before_groups[q + 1]);
                        }
                        assert forall|p: int, q: int| 0 <= p < q < self.groups@.len() implies #[trigger] self.groups@[p].top
                            != #[trigger] self.groups@[q].top by {
                            assert(self.groups@[p] == before_groups[p + 1]);
                            assert(self.groups@[q] == before_groups[q + 1]);
                        }
                    }
                }
            }
        }
        self.groups = kept;
        proof {
            assert forall|y: u64| #[trigger] self.has(y) == old(self).has(y) by {
                if groups_have(Seq::<BottomGroup>::empty(), y) {
                    let k = choose|k: int| 0 <= k < 0 && group_has(#[trigger] Seq::<BottomGroup>::empty()[k], y);
                }
            }
        }
    }
}

/// How much room a set has: for each top, how many values it can hold.
/// Entries with the same top add up.
#[derive(Debug, Clone, Default)]
pub struct Capacity {
    pub entries: Vec<(u32, usize)>,
}

/// The room for `top` that the first `k` entries give.
pub open spec fn cap_upto(entries: Seq<(u32, usize)>, top: u32, k: int) -> int
    decreases k,
{
    if k <= 0 {
        0
    } else {
        cap_upto(entries, top, k - 1) + if entries[k - 1].0 == top {
            entries[k - 1].1 as int
        } else {
            0
        }
    }
}

/// The room of all entries together.
pub open spec fn total_upto(entries: Seq<(u32, usize)>, k: int) -> int
    decreases k,
{
    if k <= 0 {
        0
    } else {
        total_upto(entries, k - 1) + entries[k - 1].1 as int
    }
}

proof fn lemma_cap_absent(entries: Seq<(u32, usize)>, top: u32, k: int)
    requires
        0 <= k <= entries.len(),
        forall|m: int| 0 <= m < k ==> #[trigger] entries[m].0 != top,
    ensures
        cap_upto(entries, top, k) == 0,
    decreases k,
{
    if k > 0 {
        lemma_cap_absent(entries, top, k - 1);
    }
}

proof fn lemma_cap_nonneg(entries: Seq<(u32, usize)>, top: u32, k: int)
    ensures
        cap_upto(entries, top, k) >= 0,
    decreases k,
{
    if k > 0 {
        lemma_cap_nonneg(entries, top, k - 1);
    }
}

impl Capacity {
    /// The room for `top`.
    pub open spec fn room(&self, top: u32) -> int {
        cap_upto(self.entries@, top, self.entries@.len() as int)
    }

    /// No room at all.
    pub fn new() -> (r: Self)
        ensures
            r.entries@.len() == 0,
            forall|t: u32| #[trigger] r.room(t) == 0,
    {
        Capacity { entries: Vec::new() }
    }

    /// The room of all tops together.
    pub fn len(&self) -> (r: usize)
        requires
            total_upto(self.entries@, self.entries@.len() as int) <= usize::MAX,
        ensures
            r == total_upto(self.entries@, self.entries@.len() as int),
    {
        let mut n: usize = 0;
        let mut i: usize = 0;
        while i < self.entries.len()
            invariant
                0 <= i <= self.entries@.len(),
                n == total_upto(self.entries@, i as int),
                total_upto(self.entries@, self.entries@.len() as int) <= usize::MAX,
            decreases self.entries@.len() - i,
        {
            proof {
                lemma_total_monotone(self.entries@, i as int + 1, self.entries@.len() as int);
            }
            n = n + self.entries[i].1;
            i += 1;
        }
        n
    }

    fn room_of(&self, top: u32) -> (r: u128)
        ensures
            r == self.room(top),
    {
        let mut n: u128 = 0;
        let mut i: usize = 0;
        while i < self.entries.len()
            invariant
                0 <= i <= self.entries@.len(),
                n == cap_upto(self.entries@, top, i as int),
                n <= i * 0xFFFF_FFFF_FFFF_FFFF,
            decreases self.entries@.len() - i,
        {
            proof {
                lemma_cap_nonneg(self.entries@, top, i as int);
                let ii = i as int;
                assert(ii * 0xFFFF_FFFF_FFFF_FFFF + 0xFFFF_FFFF_FFFF_FFFF == (ii + 1) * 0xFFFF_FFFF_FFFF_FFFF) by (nonlinear_arith);
                assert((ii + 1) * 0xFFFF_FFFF_FFFF_FFFF <= 0x1_0000_0000_0000_0000 * 0xFFFF_FFFF_FFFF_FFFF) by (nonlinear_arith)
                    requires ii + 1 <= 0x1_0000_0000_0000_0000;
            }
            if self.entries[i].0 == top {
                n = n + self.entries[i].1 as u128;
            }
            i += 1;
        }
        n
    }

    /// Whether there is no room for any top.
    pub fn is_empty(&self) -> (r: bool)
        ensures
            r == (forall|t: u32| #[trigger] self.room(t) == 0),
    {
        let mut i: usize = 0;
        while i < self.entries.len()
            invariant
                0 <= i <= self.entries@.len(),
                forall|m: int| 0 <= m < i ==> (#[trigger] self.entries@[m]).1 == 0,
                forall|t: u32| #[trigger] cap_upto(self.entries@, t, i as int) == 0,
            decreases self.entries@.len() - i,
        {
            if self.entries[i].1 != 0 {
                proof {
                    let t = self.entries@[i as int].0;
                    lemma_cap_nonneg(self.entries@, t, i as int);
                    lemma_cap_upto_grows(self.entries@, t, i as int + 1, self.entries@.len() as int);
                    assert(cap_upto(self.entries@, t, i as int + 1) > 0);
                    assert(self.room(t) > 0);
                }
                return false;
            }
            proof {
                assert forall|t: u32| #[trigger] cap_upto(self.entries@, t, i as int + 1) == 0 by {
                    assert(cap_upto(self.entries@, t, i as int) == 0);
                }
            }
            i += 1;
        }
        true
    }
}

proof fn lemma_total_monotone(entries: Seq<(u32, usize)>, a: int, b: int)
    requires
        0 <= a <= b <= entries.len(),
    ensures
        total_upto(entries, a) <= total_upto(entries, b),
    decreases b - a,
{
    if a < b {
        lemma_total_monotone(entries, a, b - 1);
    }
}

proof fn lemma_cap_upto_grows(entries: Seq<(u32, usize)>, top: u32, a: int, b: int)
    requires
        0 <= a <= b <= entries.len(),
    ensures
        cap_upto(entries, top, a) <= cap_upto(entries, top, b),
    decreases b - a,
{
    if a < b {
        lemma_cap_upto_grows(entries, top, a, b - 1);
    }
}

impl PartialEq for Capacity {
    fn eq(&self, other: &Capacity) -> (r: bool) {
        let mut i: usize = 0;
        while i < self.entries.len()
            invariant
                0 <= i <= self.entries@.len(),
                forall|m: int| 0 <= m < i ==> self.room(#[trigger] self.entries@[m].0) == other.room(self.entries@[m].0),
            decreases self.entries@.len() - i,
        {
            let t = self.entries[i].0;
            if self.room_of(t) != other.room_of(t) {
                return false;
            }
            i += 1;
        }
        let mut j: usize = 0;
        while j < other.entries.len()
            invariant
                0 <= j <= other.entries@.len(),
                forall|m: int| 0 <= m < self.entries@.len() ==> self.room(#[trigger] self.entries@[m].0) == other.room(self.entries@[m].0),
                forall|m: int| 0 <= m < j ==> self.room(#[trigger] other.entries@[m].0) == other.room(other.entries@[m].0),
            decreases other.entries@.len() - j,
        {
            let t = other.entries[j].0;
            if self.room_of(t) != other.room_of(t) {
                return false;
            }
            j += 1;
        }
        proof {
            assert forall|t: u32| #[trigger] self.room(t) == other.room(t) by {
                if forall|m: int| 0 <= m < self.entries@.len() ==> #[trigger] self.entries@[m].0 != t {
                    if forall|m: int| 0 <= m < other.entries@.len() ==> #[trigger] other.entries@[m].0 != t {
                        lemma_cap_absent(self.entries@, t, self.entries@.len() as int);
                        lemma_cap_absent(other.entries@, t, other.entries@.len() as int);
                    } else {
                        let m = choose|m: int| 0 <= m < other.entries@.len() && #[trigger] other.entries@[m].0 == t;
                        assert(self.room(other.entries@[m].0) == other.room(other.entries@[m].0));
                    }
                } else {
                    let m = choose|m: int| 0 <= m < self.entries@.len() && #[trigger] self.entries@[m].0 == t;
                    assert(self.room(self.entries@[m].0) == other.room(self.entries@[m].0));
                }
            }
        }
        true
    }
}

impl vstd::std_specs::cmp::PartialEqSpecImpl for Capacity {
    open spec fn obeys_eq_spec() -> bool {
        true
    }

    /// Two capacities are equal when they give every top the same room.
    open spec fn eq_spec(&self, other: &Capacity) -> bool {
        forall|t: u32| #[trigger] self.room(t) == other.room(t)
    }
}

impl Eq for Capacity {}

impl PartialEq for RawBoardSet {
    fn eq(&self, other: &RawBoardSet) -> (r: bool) {
        self.is_subset(other) && other.is_subset(self)
    }
}

impl vstd::std_specs::cmp::PartialEqSpecImpl for RawBoardSet {
    open spec fn obeys_eq_spec() -> bool {
        true
    }

    /// Two sets are equal when they hold the same values.
    open spec fn eq_spec(&self, other: &RawBoardSet) -> bool {
        forall|y: u64| #[trigger] self.has(y) == other.has(y)
    }
}

impl Eq for RawBoardSet {}

impl<'a> std::ops::BitAnd<&'a RawBoardSet> for &'a RawBoardSet {
    type Output = RawBoardSet;

    fn bitand(self, rhs: &'a RawBoardSet) -> (r: RawBoardSet)
        ensures
            r.wf(),
            forall|y: u64| #[trigger] r.has(y) == (self.has(y) && rhs.has(y)),
    {
        let it = self.intersection(rhs);
        proof {
            assert(it.rest() =~= it.items@);
        }
        RawBoardSet::from_iter(it)
    }
}

impl<'a> vstd::std_specs::ops::BitAndSpecImpl<&'a RawBoardSet> for &'a RawBoardSet {
    open spec fn obeys_bitand_spec() -> bool {
        false
    }

    open spec fn bitand_req(self, rhs: &'a RawBoardSet) -> bool {
        true
    }

    open spec fn bitand_spec(self, rhs: &'a RawBoardSet) -> RawBoardSet {
        *self
    }
}

impl<'a> std::ops::BitOr<&'a RawBoardSet> for &'a RawBoardSet {
    type Output = RawBoardSet;

    fn bitor(self, rhs: &'a RawBoardSet) -> (r: RawBoardSet)
        ensures
            r.wf(),
            forall|y: u64| #[trigger] r.has(y) == (self.has(y) || rhs.has(y)),
    {
        let it = self.union(rhs);
        proof {
            assert(it.rest() =~= it.items@);
        }
        RawBoardSet::from_iter(it)
    }
}

impl<'a> vstd::std_specs::ops::BitOrSpecImpl<&'a RawBoardSet> for &'a RawBoardSet {
    open spec fn obeys_bitor_spec() -> bool {
        false
    }

    open spec fn bitor_req(self, rhs: &'a RawBoardSet) -> bool {
        true
    }

    open spec fn bitor_spec(self, rhs: &'a RawBoardSet) -> RawBoardSet {
        *self
    }
}

impl<'a> std::ops::BitXor<&'a RawBoardSet> for &'a RawBoardSet {
    type Output = RawBoardSet;

    fn bitxor(self, rhs: &'a RawBoardSet) -> (r: RawBoardSet)
        ensures
            r.wf(),
            forall|y: u64| #[trigger] r.has(y) == (self.has(y) != rhs.has(y)),
    {
        let it = self.symmetric_difference(rhs);
        proof {
            assert(it.rest() =~= it.items@);
        }
        RawBoardSet::from_iter(it)
    }
}

impl<'a> vstd::std_specs::ops::BitXorSpecImpl<&'a RawBoardSet> for &'a RawBoardSet {
    open spec fn obeys_bitxor_spec() -> bool {
        false
    }

    open spec fn bitxor_req(self, rhs: &'a RawBoardSet) -> bool {
        true
    }

    open spec fn bitxor_spec(self, rhs: &'a RawBoardSet) -> RawBoardSet {
        *self
    }
}

impl<'a> std::ops::Sub<&'a RawBoardSet> for &'a RawBoardSet {
    type Output = RawBoardSet;

    fn sub(self, rhs: &'a RawBoardSet) -> (r: RawBoardSet)
        ensures
            r.wf(),
            forall|y: u64| #[trigger] r.has(y) == (self.has(y) && !rhs.has(y)),
    {
        let it = self.difference(rhs);
        proof {
            assert(it.rest() =~= it.items@);
        }
        RawBoardSet::from_iter(it)
    }
}

impl<'a> vstd::std_specs::ops::SubSpecImpl<&'a RawBoardSet> for &'a RawBoardSet {
    open spec fn obeys_sub_spec() -> bool {
        false
    }

    open spec fn sub_req(self, rhs: &'a RawBoardSet) -> bool {
        true
    }

    open spec fn sub_spec(self, rhs: &'a RawBoardSet) -> RawBoardSet {
        *self
    }
}

/// The number of values among the first `k` whose top is `top`.
pub open spec fn count_top(values: Seq<u64>, top: u32, k: int) -> int
    decreases k,
{
    if k <= 0 {
        0
    } else {
        count_top(values, top, k - 1) + if top_of(values[k - 1]) == top {
            1int
        } else {
            0
        }
    }
}

proof fn lemma_cap_push(entries: Seq<(u32, usize)>, e: (u32, usize), top: u32, k: int)
    requires
        0 <= k <= entries.len(),
    ensures
        cap_upto(entries.push(e), top, k) == cap_upto(entries, top, k),
    decreases k,
{
    if k > 0 {
        lemma_cap_push(entries, e, top, k - 1);
    }
}

/// The four bytes of a word, most significant first.
pub open spec fn word_bytes(w: u32) -> Seq<u8> {
    seq![(w / 0x100_0000) as u8, ((w / 0x1_0000) % 0x100) as u8, ((w / 0x100) % 0x100) as u8, (w % 0x100) as u8]
}

/// The bytes of the bottoms `b[0..k]`.
pub open spec fn bottoms_bytes(b: Seq<u32>, k: int) -> Seq<u8>
    decreases k,
{
    if k <= 0 {
        seq![]
    } else {
        bottoms_bytes(b, k - 1) + word_bytes(b[k - 1])
    }
}

/// The bytes of the groups `g[0..k]`: for each, its top, its bottoms and the
/// delimiter.
pub open spec fn groups_bytes(g: Seq<BottomGroup>, k: int) -> Seq<u8>
    decreases k,
{
    if k <= 0 {
        seq![]
    } else {
        groups_bytes(g, k - 1) + word_bytes(g[k - 1].top) + bottoms_bytes(
            g[k - 1].bottoms@,
            g[k - 1].bottoms@.len() as int,
        ) + word_bytes(DELIMITER)
    }
}

fn push_word(out: &mut Vec<u8>, w: u32)
    ensures
        final(out)@ == old(out)@ + word_bytes(w),
{
    out.push((w / 0x100_0000) as u8);
    out.push(((w / 0x1_0000) % 0x100) as u8);
    out.push(((w / 0x100) % 0x100) as u8);
    out.push((w % 0x100) as u8);
    proof {
        assert(out@ =~= old(out)@ + word_bytes(w));
    }
}

impl RawBoardSet {
    /// Adds every value that `bytes` holds.
    pub fn load(&mut self, bytes: Vec<u8>)
        ensures
            old(self).wf() ==> final(self).wf(),
            forall|y: u64| #[trigger] final(self).has(y) == (old(self).has(y) || stream_values(bytes@).contains(y)),
    {
        let ghost all = stream_values(bytes@);
        let mut loader = LazyRawBoardLoader::new(bytes);
        let ghost mut done: Seq<u64> = seq![];
        loop
            invariant
                all == stream_values(bytes@),
                all == done + loader.pending(),
                old(self).wf() ==> self.wf(),
                forall|y: u64| #[trigger] self.has(y) == (old(self).has(y) || done.contains(y)),
            decreases loader.pending().len(),
        {
            let ghost before = loader.pending();
            match loader.try_next() {
                None => {
                    proof {
                        assert(all =~= done);
                    }
                    return;
                },
                Some(x) => {
                    self.insert(x);
                    proof {
                        assert forall|y: u64| #[trigger] self.has(y) == (old(self).has(y) || done.push(x).contains(y)) by {
                            lemma_push_contains(done, x, y);
                        }
                        assert(done.push(x) + loader.pending() =~= done + before);
                        done = done.push(x);
                    }
                },
            }
        }
    }

    /// Adds the values that `bytes` holds and on which `f` holds.
    pub fn load_filter<F: Fn(u64) -> bool>(&mut self, bytes: Vec<u8>, f: F)
        requires
            forall|x: u64| #[trigger] f.requires((x,)),
        ensures
            old(self).wf() ==> final(self).wf(),
            forall|y: u64| #[trigger] final(self).has(y) ==> old(self).has(y) || (stream_values(bytes@).contains(y) && f.ensures((y,), true)),
            forall|y: u64| stream_values(bytes@).contains(y) && !#[trigger] final(self).has(y) ==> f.ensures((y,), false),
            forall|y: u64| old(self).has(y) ==> #[trigger] final(self).has(y),
    {
        let ghost all = stream_values(bytes@);
        let mut loader = LazyRawBoardLoader::new(bytes);
        let ghost mut done: Seq<u64> = seq![];
        loop
            invariant
                all == stream_values(bytes@),
                all == done + loader.pending(),
                forall|x: u64| #[trigger] f.requires((x,)),
                old(self).wf() ==> self.wf(),
                forall|y: u64| #[trigger] self.has(y) ==> old(self).has(y) || (done.contains(y) && f.ensures((y,), true)),
                forall|y: u64| done.contains(y) && !#[trigger] self.has(y) ==> f.ensures((y,), false),
                forall|y: u64| old(self).has(y) ==> #[trigger] self.has(y),
            decreases loader.pending().len(),
        {
            let ghost before = loader.pending();
            match loader.try_next() {
                None => {
                    proof {
                        assert(all =~= done);
                    }
                    return;
                },
                Some(x) => {
                    let keep = f(x);
                    if keep {
                        self.insert(x);
                    }
                    proof {
                        assert forall|y: u64| #[trigger] done.push(x).contains(y) == (done.contains(y) || y == x) by {
                            lemma_push_contains(done, x, y);
                        }
                        assert(done.push(x) + loader.pending() =~= done + before);
                        done = done.push(x);
                    }
                },
            }
        }
    }

    /// Removes every value that `bytes` holds; returns whether any was in the set.
    pub fn remove_loaded_values(&mut self, bytes: Vec<u8>) -> (r: bool)
        ensures
            old(self).wf() ==> final(self).wf(),
            forall|y: u64| #[trigger] final(self).has(y) == (old(self).has(y) && !stream_values(bytes@).contains(y)),
            r == (exists|y: u64| #[trigger] old(self).has(y) && stream_values(bytes@).contains(y)),
    {
        let ghost all = stream_values(bytes@);
        let mut loader = LazyRawBoardLoader::new(bytes);
        let ghost mut done: Seq<u64> = seq![];
        let mut removed = false;
        loop
            invariant
                all == stream_values(bytes@),
                all == done + loader.pending(),
                old(self).wf() ==> self.wf(),
                forall|y: u64| #[trigger] self.has(y) == (old(self).has(y) && !done.contains(y)),
                removed == (exists|y: u64| #[trigger] old(self).has(y) && done.contains(y)),
            decreases loader.pending().len(),
        {
            let ghost before = loader.pending();
            match loader.try_next() {
                None => {
                    proof {
                        assert(all =~= done);
                    }
                    return removed;
                },
                Some(x) => {
                    let hit = self.remove(&x);
                    proof {
                        assert forall|y: u64| #[trigger] done.push(x).contains(y) == (done.contains(y) || y == x) by {
                            lemma_push_contains(done, x, y);
                        }
                        if hit {
                            assert(old(self).has(x) && done.push(x).contains(x));
                        }
                        if removed {
                            let y = choose|y: u64| #[trigger] old(self).has(y) && done.contains(y);
                            assert(old(self).has(y) && done.push(x).contains(y));
                        }
                        if !removed && !hit {
                            assert forall|y: u64| !(#[trigger] old(self).has(y) && done.push(x).contains(y)) by {
                                if old(self).has(y) && done.push(x).contains(y) && y == x {
                                    assert(self.has(x) == (old(self).has(x) && !done.contains(x)));
                                }
                            }
                        }
                        assert(done.push(x) + loader.pending() =~= done + before);
                        done = done.push(x);
                    }
                    removed = removed || hit;
                },
            }
        }
    }

    /// For each top, how many of the values that `bytes` holds it has: the
    /// room that loading them needs.
    pub fn required_capacity(bytes: Vec<u8>) -> (r: Capacity)
        ensures
            forall|t: u32| #[trigger] r.room(t) == count_top(
                stream_values(bytes@),
                t,
                stream_values(bytes@).len() as int,
            ),
    {
        let ghost all = stream_values(bytes@);
        let mut loader = LazyRawBoardLoader::new(bytes);
        let ghost mut done: Seq<u64> = seq![];
        let mut entries: Vec<(u32, usize)> = Vec::new();
        loop
            invariant
                all == stream_values(bytes@),
                all == done + loader.pending(),
                forall|t: u32| #[trigger] cap_upto(entries@, t, entries@.len() as int) == count_top(done, t, done.len() as int),
            decreases loader.pending().len(),
        {
            let ghost before = loader.pending();
            match loader.try_next() {
                None => {
                    proof {
                        assert(all =~= done);
                    }
                    return Capacity { entries };
                },
                Some(x) => {
                    let ghost old_entries = entries@;
                    let (top, _) = split_value(x);
                    entries.push((top, 1));
                    proof {
                        assert forall|t: u32| #[trigger] cap_upto(entries@, t, entries@.len() as int) == count_top(done.push(x), t, done.len() as int + 1) by {
                            lemma_cap_push(old_entries, (top, 1usize), t, old_entries.len() as int);
                            lemma_count_top_prefix(done, x, t, done.len() as int);
                        }
                        assert(done.push(x) + loader.pending() =~= done + before);
                        done = done.push(x);
                    }
                },
            }
        }
    }

    /// The bytes that hold the set: each group as its top, its bottoms and
    /// the delimiter.
    pub fn save(&self) -> (r: Vec<u8>)
        ensures
            r@ == groups_bytes(self.groups@, self.groups@.len() as int),
    {
        let mut out: Vec<u8> = Vec::new();
        let mut i: usize = 0;
        while i < self.groups.len()
            invariant
                0 <= i <= self.groups@.len(),
                out@ == groups_bytes(self.groups@, i as int),
            decreases self.groups@.len() - i,
        {
            let ghost start = out@;
            push_word(&mut out, self.groups[i].top);
            let bottoms = &self.groups[i].bottoms;
            let ghost mid = out@;
            let mut j: usize = 0;
            while j < bottoms.len()
                invariant
                    0 <= j <= bottoms@.len(),
                    out@ == mid + bottoms_bytes(bottoms@, j as int),
                decreases bottoms@.len() - j,
            {
                push_word(&mut out, bottoms[j]);
                proof {
                    assert(out@ =~= mid + bottoms_bytes(bottoms@, j + 1));
                }
                j += 1;
            }
            push_word(&mut out, DELIMITER);
            proof {
                assert(out@ =~= groups_bytes(self.groups@, i + 1));
            }
            i += 1;
        }
        out
    }
}

proof fn lemma_count_top_prefix(done: Seq<u64>, x: u64, t: u32, k: int)
    requires
        0 <= k <= done.len(),
    ensures
        count_top(done.push(x), t, k) == count_top(done, t, k),
    decreases k,
{
    if k > 0 {
        lemma_count_top_prefix(done, x, t, k - 1);
    }
}

impl RawBoardSet {
    /// For each top, how many of the values that `bytes` holds and on which
    /// `f` holds it has.
    pub fn required_capacity_filter<F: Fn(u64) -> bool>(bytes: Vec<u8>, f: F) -> (r: Capacity)
        requires
            forall|x: u64| #[trigger] f.requires((x,)),
        ensures
            forall|t: u32| #[trigger] r.room(t) <= count_top(
                stream_values(bytes@),
                t,
                stream_values(bytes@).len() as int,
            ),
    {
        let ghost all = stream_values(bytes@);
        let mut loader = LazyRawBoardLoader::new(bytes);
        let ghost mut done: Seq<u64> = seq![];
        let mut entries: Vec<(u32, usize)> = Vec::new();
        loop
            invariant
                all == stream_values(bytes@),
                all == done + loader.pending(),
                forall|x: u64| #[trigger] f.requires((x,)),
                forall|t: u32| #[trigger] cap_upto(entries@, t, entries@.len() as int) <= count_top(done, t, done.len() as int),
            decreases loader.pending().len(),
        {
            let ghost before = loader.pending();
            match loader.try_next() {
                None => {
                    proof {
                        assert(all =~= done);
                    }
                    return Capacity { entries };
                },
                Some(x) => {
                    let ghost old_entries = entries@;
                    let (top, _) = split_value(x);
                    if f(x) {
                        entries.push((top, 1));
                    }
                    proof {
                        assert forall|t: u32| #[trigger] cap_upto(entries@, t, entries@.len() as int) <= count_top(done.push(x), t, done.len() as int + 1) by {
                            lemma_cap_push(old_entries, (top, 1usize), t, old_entries.len() as int);
                            lemma_count_top_prefix(done, x, t, done.len() as int);
                        }
                        assert(done.push(x) + loader.pending() =~= done + before);
                        done = done.push(x);
                    }
                },
            }
        }
    }
}

/// A cursor over a list of boards.
#[derive(Debug, Clone)]
pub struct Iter {
    pub raw: RawIter,
}

impl Iter {
    /// The next board, if any.
    pub fn next(&mut self) -> (r: Option<Board>)
        requires
            old(self).raw.pos <= old(self).raw.items@.len(),
        ensures
            final(self).raw.items@ == old(self).raw.items@,
            final(self).raw.pos <= final(self).raw.items@.len(),
            old(self).raw.pos == old(self).raw.items@.len() ==> r.is_none(),
            old(self).raw.pos < old(self).raw.items@.len() ==> r == Some(
                Board { raw: old(self).raw.items@[old(self).raw.pos as int] },
            ) && final(self).raw.pos == old(self).raw.pos + 1,
    {
        match self.raw.next() {
            Some(h) => Some(Board::from_u64(h)),
            None => None,
        }
    }
}

/// The boards of a set that the other set lacks.
pub type Difference = Iter;

/// The boards that exactly one of two sets holds.
pub type SymmetricDifference = Iter;

/// The boards that both sets hold.
pub type Intersection = Iter;

/// The boards that either set holds.
pub type Union = Iter;

/// The boards taken out of a set.
pub type Drain = Iter;

/// The boards of a set, by value.
pub type IntoIter = Iter;

/// A set of boards, held as their packed values in a [`RawBoardSet`].
#[derive(Debug, Default, Clone)]
pub struct BoardSet {
    pub raw: RawBoardSet,
}

impl BoardSet {
    /// Whether `board` is in the set.
    pub open spec fn has(&self, board: Board) -> bool {
        self.raw.has(board.raw)
    }

    pub open spec fn wf(&self) -> bool {
        self.raw.wf()
    }

    pub fn new() -> (r: Self)
        ensures
            r.wf(),
            forall|b: Board| !#[trigger] r.has(b),
    {
        BoardSet { raw: RawBoardSet::new() }
    }

    pub fn raw(&self) -> (r: &RawBoardSet)
        ensures
            *r == self.raw,
    {
        &self.raw
    }

    pub fn into_raw(self) -> (r: RawBoardSet)
        ensures
            r == self.raw,
    {
        self.raw
    }

    pub fn from_raw(raw: RawBoardSet) -> (r: Self)
        ensures
            r.raw == raw,
    {
        BoardSet { raw }
    }

    /// See [`RawBoardSet::required_capacity`].
    pub fn required_capacity(bytes: Vec<u8>) -> (r: Capacity)
        ensures
            forall|t: u32| #[trigger] r.room(t) == count_top(
                stream_values(bytes@),
                t,
                stream_values(bytes@).len() as int,
            ),
    {
        RawBoardSet::required_capacity(bytes)
    }

    /// See [`RawBoardSet::required_capacity_filter`].
    pub fn required_capacity_filter<F: Fn(u64) -> bool>(bytes: Vec<u8>, f: F) -> (r: Capacity)
        requires
            forall|x: u64| #[trigger] f.requires((x,)),
        ensures
            forall|t: u32| #[trigger] r.room(t) <= count_top(
                stream_values(bytes@),
                t,
                stream_values(bytes@).len() as int,
            ),
    {
        RawBoardSet::required_capacity_filter(bytes, f)
    }

    pub fn with_capacity(capacity: Capacity) -> (r: Self)
        ensures
            r.wf(),
            forall|b: Board| !#[trigger] r.has(b),
    {
        BoardSet { raw: RawBoardSet::with_capacity(capacity) }
    }

    pub fn capacity(&self) -> (r: Capacity)
        ensures
            r.entries@.len() == self.raw.groups@.len(),
            forall|k: int|
                0 <= k < r.entries@.len() ==> #[trigger] r.entries@[k] == (
                    self.raw.groups@[k].top,
                    self.raw.groups@[k].capacity,
                ),
    {
        self.raw.capacity()
    }

    /// A cursor over every board of the set.
    pub fn iter(&self) -> (r: Iter)
        ensures
            r.raw.pos == 0,
            forall|b: Board| #[trigger] r.raw.items@.contains(b.raw) == self.has(b),
            r.raw.rest() == r.raw.items@,
    {
        Iter { raw: self.raw.iter() }
    }

    pub fn len(&self) -> (r: usize)
        ensures
            r == self.raw.count(),
    {
        self.raw.len()
    }

    pub fn is_empty(&self) -> (r: bool)
        ensures
            r == (forall|b: Board| !#[trigger] self.has(b)),
    {
        let r = self.raw.is_empty();
        proof {
            if !r {
                let y = choose|y: u64| #[trigger] self.raw.has(y);
                assert(self.has(Board { raw: y }));
            }
        }
        r
    }

    /// Takes every board out, keeping the allocated room.
    pub fn drain(&mut self) -> (r: Drain)
        ensures
            old(self).wf() ==> final(self).wf(),
            r.raw.pos == 0,
            forall|b: Board| #[trigger] r.raw.items@.contains(b.raw) == old(self).has(b),
            forall|b: Board| !#[trigger] final(self).has(b),
            final(self).raw.groups@.len() == old(self).raw.groups@.len(),
            forall|k: int|
                0 <= k < final(self).raw.groups@.len() ==> (#[trigger] final(self).raw.groups@[k]).top
                    == old(self).raw.groups@[k].top && final(self).raw.groups@[k].capacity
                    == old(self).raw.groups@[k].capacity,
    {
        Iter { raw: self.raw.drain() }
    }

    /// Keeps only the boards on which `f` holds.
    pub fn retain<F: Fn(Board) -> bool>(&mut self, f: F)
        requires
            forall|b: Board| #[trigger] f.requires((b,)),
        ensures
            old(self).wf() ==> final(self).wf(),
            forall|b: Board| #[trigger] final(self).has(b) ==> old(self).has(b) && f.ensures((b,), true),
            forall|b: Board| old(self).has(b) && !#[trigger] final(self).has(b) ==> f.ensures((b,), false),
    {
        let items = self.raw.to_vec();
        let mut i: usize = 0;
        while i < items.len()
            invariant
                0 <= i <= items@.len(),
                forall|b: Board| #[trigger] f.requires((b,)),
                forall|y: u64| #[trigger] items@.contains(y) == old(self).has(Board { raw: y }),
                old(self).wf() ==> self.wf(),
                forall|b: Board| #[trigger] self.has(b) ==> old(self).has(b),
                forall|b: Board| old(self).has(b) && !prefix_has(items@, i as int, b.raw) ==> #[trigger] self.has(b),
                forall|b: Board| #[trigger] self.has(b) && prefix_has(items@, i as int, b.raw) ==> f.ensures((b,), true),
                forall|b: Board| old(self).has(b) && !#[trigger] self.has(b) ==> f.ensures((b,), false),
            decreases items@.len() - i,
        {
            let x = items[i];
            let keep = f(Board::from_u64(x));
            let ghost before = *self;
            if !keep {
                self.raw.remove(&x);
            }
            proof {
                assert forall|b: Board| #[trigger] self.has(b) == (before.has(b) && (keep || b.raw != x)) by {
                    if !keep {
                        assert(self.raw.has(b.raw) == (before.raw.has(b.raw) && b.raw != x));
                    }
                }
                assert forall|y: u64| #[trigger] prefix_has(items@, i + 1, y) == (prefix_has(items@, i as int, y) || items@[i as int] == y) by {
                    lemma_prefix_step(items@, i as int, y);
                }
            }
            i += 1;
        }
        proof {
            assert forall|b: Board| #[trigger] self.has(b) implies f.ensures((b,), true) by {
                lemma_prefix_full(items@, b.raw);
            }
        }
    }

    /// Removes every board that `bytes` holds; returns whether any was in the set.
    pub fn remove_loaded_values(&mut self, bytes: Vec<u8>) -> (r: bool)
        ensures
            old(self).wf() ==> final(self).wf(),
            forall|b: Board| #[trigger] final(self).has(b) == (old(self).has(b) && !stream_values(bytes@).contains(b.raw)),
            r == (exists|y: u64| #[trigger] old(self).raw.has(y) && stream_values(bytes@).contains(y)),
    {
        self.raw.remove_loaded_values(bytes)
    }

    pub fn clear(&mut self)
        ensures
            final(self).wf(),
            forall|b: Board| !#[trigger] final(self).has(b),
    {
        self.raw.clear()
    }

    pub fn reserve(&mut self, additional: Capacity)
        ensures
            old(self).wf() ==> final(self).wf(),
            forall|b: Board| #[trigger] final(self).has(b) == old(self).has(b),
    {
        self.raw.reserve(additional)
    }

    pub fn shrink_to_fit(&mut self)
        ensures
            old(self).wf() ==> final(self).wf(),
            forall|b: Board| #[trigger] final(self).has(b) == old(self).has(b),
    {
        self.raw.shrink_to_fit()
    }

    pub fn difference(&self, other: &BoardSet) -> (r: Difference)
        ensures
            r.raw.pos == 0,
            forall|b: Board| #[trigger] r.raw.items@.contains(b.raw) == (self.has(b) && !other.has(b)),
    {
        Iter { raw: self.raw.difference(&other.raw) }
    }

    pub fn symmetric_difference(&self, other: &BoardSet) -> (r: SymmetricDifference)
        ensures
            r.raw.pos == 0,
            forall|b: Board| #[trigger] r.raw.items@.contains(b.raw) == (self.has(b) != other.has(b)),
    {
        Iter { raw: self.raw.symmetric_difference(&other.raw) }
    }

    pub fn intersection(&self, other: &BoardSet) -> (r: Intersection)
        ensures
            r.raw.pos == 0,
            forall|b: Board| #[trigger] r.raw.items@.contains(b.raw) == (self.has(b) && other.has(b)),
    {
        Iter { raw: self.raw.intersection(&other.raw) }
    }

    pub fn union(&self, other: &BoardSet) -> (r: Union)
        ensures
            r.raw.pos == 0,
            forall|b: Board| #[trigger] r.raw.items@.contains(b.raw) == (self.has(b) || other.has(b)),
    {
        Iter { raw: self.raw.union(&other.raw) }
    }

    pub fn contains(&self, board: &Board) -> (r: bool)
        ensures
            r == self.has(*board),
    {
        self.raw.contains(&board.to_u64())
    }

    pub fn is_disjoint(&self, other: &BoardSet) -> (r: bool)
        ensures
            r == (forall|b: Board| !(#[trigger] self.has(b) && other.has(b))),
    {
        let r = self.raw.is_disjoint(&other.raw);
        proof {
            if !r {
                let y = choose|y: u64| #[trigger] self.raw.has(y) && other.raw.has(y);
                assert(self.has(Board { raw: y }) && other.has(Board { raw: y }));
            }
        }
        r
    }

    pub fn is_subset(&self, other: &BoardSet) -> (r: bool)
        ensures
            r == (forall|b: Board| self.has(b) ==> #[trigger] other.has(b)),
    {
        let r = self.raw.is_subset(&other.raw);
        proof {
            if !r {
                let y = choose|y: u64| !(self.raw.has(y) ==> #[trigger] other.raw.has(y));
                assert(self.has(Board { raw: y }) && !other.has(Board { raw: y }));
            }
        }
        r
    }

    pub fn is_superset(&self, other: &BoardSet) -> (r: bool)
        ensures
            r == (forall|b: Board| other.has(b) ==> #[trigger] self.has(b)),
    {
        other.is_subset(self)
    }

    /// Adds `board`; returns whether it was new.
    pub fn insert(&mut self, board: Board) -> (r: bool)
        ensures
            old(self).wf() ==> final(self).wf(),
            r == !old(self).has(board),
            forall|b: Board| #[trigger] final(self).has(b) == (old(self).has(b) || b == board),
    {
        self.raw.insert(board.to_u64())
    }

    /// Removes `board`; returns whether it was there.
    pub fn remove(&mut self, board: &Board) -> (r: bool)
        ensures
            old(self).wf() ==> final(self).wf(),
            r == old(self).has(*board),
            forall|b: Board| #[trigger] final(self).has(b) == (old(self).has(b) && b != *board),
    {
        self.raw.remove(&board.to_u64())
    }

    /// Removes `board` and returns it, if it was there.
    pub fn take(&mut self, board: &Board) -> (r: Option<Board>)
        ensures
            old(self).wf() ==> final(self).wf(),
            r == (if old(self).has(*board) {
                Some(*board)
            } else {
                None
            }),
            forall|b: Board| #[trigger] final(self).has(b) == (old(self).has(b) && b != *board),
    {
        match self.raw.take(&board.to_u64()) {
            Some(h) => Some(Board::from_u64(h)),
            None => None,
        }
    }

    /// Adds every board of `set`.
    pub fn absorb(&mut self, set: BoardSet)
        ensures
            old(self).wf() ==> final(self).wf(),
            forall|b: Board| #[trigger] final(self).has(b) == (old(self).has(b) || set.has(b)),
    {
        self.raw.absorb(set.raw);
    }

    /// Moves every board of `set` into `self`.
    pub fn absorb_drained(&mut self, set: &mut BoardSet)
        ensures
            old(self).wf() ==> final(self).wf(),
            old(set).wf() ==> final(set).wf(),
            forall|b: Board| #[trigger] final(self).has(b) == (old(self).has(b) || old(set).has(b)),
            forall|b: Board| !#[trigger] final(set).has(b),
    {
        self.raw.absorb_drained(&mut set.raw);
    }

    /// Adds every board that `bytes` holds.
    pub fn load(&mut self, bytes: Vec<u8>)
        ensures
            old(self).wf() ==> final(self).wf(),
            forall|b: Board| #[trigger] final(self).has(b) == (old(self).has(b) || stream_values(bytes@).contains(b.raw)),
    {
        self.raw.load(bytes)
    }

    /// Adds the boards that `bytes` holds and whose packed value passes `f`.
    pub fn load_filter<F: Fn(u64) -> bool>(&mut self, bytes: Vec<u8>, f: F)
        requires
            forall|x: u64| #[trigger] f.requires((x,)),
        ensures
            old(self).wf() ==> final(self).wf(),
            forall|b: Board| #[trigger] final(self).has(b) ==> old(self).has(b) || (stream_values(bytes@).contains(b.raw) && f.ensures((b.raw,), true)),
            forall|b: Board| stream_values(bytes@).contains(b.raw) && !#[trigger] final(self).has(b) ==> f.ensures((b.raw,), false),
            forall|b: Board| old(self).has(b) ==> #[trigger] final(self).has(b),
    {
        self.raw.load_filter(bytes, f)
    }

    /// The bytes that hold the set (see [`RawBoardSet::save`]).
    pub fn save(&self) -> (r: Vec<u8>)
        ensures
            r@ == groups_bytes(self.raw.groups@, self.raw.groups@.len() as int),
    {
        self.raw.save()
    }

    /// Splits the set in two: `left_len` of its boards (all, if it has
    /// fewer) go left and the others right.
    pub fn split(self, left_len: usize) -> (r: (Self, Self))
        ensures
            r.0.wf(),
            r.1.wf(),
            forall|b: Board| #[trigger] self.has(b) == (r.0.has(b) || r.1.has(b)),
            self.wf() ==> forall|b: Board| !(#[trigger] r.0.has(b) && r.1.has(b)),
    {
        let (left, right) = self.raw.split(left_len);
        (BoardSet { raw: left }, BoardSet { raw: right })
    }

    /// The set of the boards that `iter` has not yet handed out.
    pub fn from_iter(iter: Iter) -> (r: Self)
        requires
            iter.raw.pos <= iter.raw.items@.len(),
        ensures
            r.wf(),
            forall|b: Board| #[trigger] r.has(b) == iter.raw.rest().contains(b.raw),
    {
        BoardSet { raw: RawBoardSet::from_iter(iter.raw) }
    }

    /// Adds the boards that `iter` has not yet handed out.
    pub fn extend(&mut self, iter: Iter)
        requires
            iter.raw.pos <= iter.raw.items@.len(),
        ensures
            old(self).wf() ==> final(self).wf(),
            forall|b: Board| #[trigger] final(self).has(b) == (old(self).has(b) || iter.raw.rest().contains(b.raw)),
    {
        self.raw.extend(iter.raw)
    }
}

impl PartialEq for BoardSet {
    fn eq(&self, other: &BoardSet) -> (r: bool) {
        self.raw.is_subset(&other.raw) && other.raw.is_subset(&self.raw)
    }
}

impl vstd::std_specs::cmp::PartialEqSpecImpl for BoardSet {
    open spec fn obeys_eq_spec() -> bool {
        true
    }

    /// Two sets are equal when they hold the same boards.
    open spec fn eq_spec(&self, other: &BoardSet) -> bool {
        forall|y: u64| #[trigger] self.raw.has(y) == other.raw.has(y)
    }
}

impl Eq for BoardSet {}

impl<'a> std::ops::BitAnd<&'a BoardSet> for &'a BoardSet {
    type Output = BoardSet;

    fn bitand(self, rhs: &'a BoardSet) -> (r: BoardSet)
        ensures
            r.wf(),
            forall|b: Board| #[trigger] r.has(b) == (self.has(b) && rhs.has(b)),
    {
        let it = self.raw.intersection(&rhs.raw);
        proof {
            assert(it.rest() =~= it.items@);
        }
        BoardSet { raw: RawBoardSet::from_iter(it) }
    }
}

impl<'a> vstd::std_specs::ops::BitAndSpecImpl<&'a BoardSet> for &'a BoardSet {
    open spec fn obeys_bitand_spec() -> bool {
        false
    }

    open spec fn bitand_req(self, rhs: &'a BoardSet) -> bool {
        true
    }

    open spec fn bitand_spec(self, rhs: &'a BoardSet) -> BoardSet {
        *self
    }
}

impl<'a> std::ops::BitOr<&'a BoardSet> for &'a BoardSet {
    type Output = BoardSet;

    fn bitor(self, rhs: &'a BoardSet) -> (r: BoardSet)
        ensures
            r.wf(),
            forall|b: Board| #[trigger] r.has(b) == (self.has(b) || rhs.has(b)),
    {
        let it = self.raw.union(&rhs.raw);
        proof {
            assert(it.rest() =~= it.items@);
        }
        BoardSet { raw: RawBoardSet::from_iter(it) }
    }
}

impl<'a> vstd::std_specs::ops::BitOrSpecImpl<&'a BoardSet> for &'a BoardSet {
    open spec fn obeys_bitor_spec() -> bool {
        false
    }

    open spec fn bitor_req(self, rhs: &'a BoardSet) -> bool {
        true
    }

    open spec fn bitor_spec(self, rhs: &'a BoardSet) -> BoardSet {
        *self
    }
}

impl<'a> std::ops::BitXor<&'a BoardSet> for &'a BoardSet {
    type Output = BoardSet;

    fn bitxor(self, rhs: &'a BoardSet) -> (r: BoardSet)
        ensures
            r.wf(),
            forall|b: Board| #[trigger] r.has(b) == (self.has(b) != rhs.has(b)),
    {
        let it = self.raw.symmetric_difference(&rhs.raw);
        proof {
            assert(it.rest() =~= it.items@);
        }
        BoardSet { raw: RawBoardSet::from_iter(it) }
    }
}

impl<'a> vstd::std_specs::ops::BitXorSpecImpl<&'a BoardSet> for &'a BoardSet {
    open spec fn obeys_bitxor_spec() -> bool {
        false
    }

    open spec fn bitxor_req(self, rhs: &'a BoardSet) -> bool {
        true
    }

    open spec fn bitxor_spec(self, rhs: &'a BoardSet) -> BoardSet {
        *self
    }
}

impl<'a> std::ops::Sub<&'a BoardSet> for &'a BoardSet {
    type Output = BoardSet;

    fn sub(self, rhs: &'a BoardSet) -> (r: BoardSet)
        ensures
            r.wf(),
            forall|b: Board| #[trigger] r.has(b) == (self.has(b) && !rhs.has(b)),
    {
        let it = self.raw.difference(&rhs.raw);
        proof {
            assert(it.rest() =~= it.items@);
        }
        BoardSet { raw: RawBoardSet::from_iter(it) }
    }
}

impl<'a> vstd::std_specs::ops::SubSpecImpl<&'a BoardSet> for &'a BoardSet {
    open spec fn obeys_sub_spec() -> bool {
        false
    }

    open spec fn sub_req(self, rhs: &'a BoardSet) -> bool {
        true
    }

    open spec fn sub_spec(self, rhs: &'a BoardSet) -> BoardSet {
        *self
    }
}

proof fn lemma_word_round_trip(b: Seq<u8>, p: int, w: u32)
    requires
        0 <= p,
        p + 4 <= b.len(),
        b[p] == word_bytes(w)[0],
        b[p + 1] == word_bytes(w)[1],
        b[p + 2] == word_bytes(w)[2],
        b[p + 3] == word_bytes(w)[3],
    ensures
        word_at(b, p) == w,
{
    let w0 = w as int / 0x100_0000;
    let w1 = (w as int / 0x1_0000) % 0x100;
    let w2 = (w as int / 0x100) % 0x100;
    let w3 = w as int % 0x100;
    assert(w0 * 0x100_0000 + w1 * 0x1_0000 + w2 * 0x100 + w3 == w as int);
}


/// The bytes of one group: its top, its bottoms, the delimiter.
pub open spec fn group_bytes(g: BottomGroup) -> Seq<u8> {
    word_bytes(g.top) + bottoms_bytes(g.bottoms@, g.bottoms@.len() as int) + word_bytes(DELIMITER)
}

proof fn lemma_bottoms_layout(bs: Seq<u32>, m: int)
    requires
        0 <= m <= bs.len(),
    ensures
        bottoms_bytes(bs, m).len() == 4 * m,
        forall|k: int, q: int|
            0 <= k < m && 0 <= q < 4 ==> #[trigger] bottoms_bytes(bs, m)[4 * k + q] == word_bytes(bs[k])[q],
    decreases m,
{
    if m > 0 {
        lemma_bottoms_layout(bs, m - 1);
        assert forall|k: int, q: int| 0 <= k < m && 0 <= q < 4 implies #[trigger] bottoms_bytes(bs, m)[4 * k + q]
            == word_bytes(bs[k])[q] by {
            if k < m - 1 {
                assert(bottoms_bytes(bs, m)[4 * k + q] == bottoms_bytes(bs, m - 1)[4 * k + q]);
            }
        }
    }
}

proof fn lemma_groups_prefix(g: Seq<BottomGroup>, k: int, n: int)
    requires
        0 <= k <= n,
    ensures
        groups_bytes(g, k).len() <= groups_bytes(g, n).len(),
        forall|q: int| 0 <= q < groups_bytes(g, k).len() ==> #[trigger] groups_bytes(g, n)[q] == groups_bytes(g, k)[q],
    decreases n - k,
{
    if k < n {
        lemma_groups_prefix(g, k, n - 1);
    }
}

proof fn lemma_singleton_concat_contains(a: u64, rest: Seq<u64>, y: u64)
    ensures
        (seq![a] + rest).contains(y) == (y == a || rest.contains(y)),
{
    let s = seq![a] + rest;
    if s.contains(y) {
        let m = choose|m: int| 0 <= m < s.len() && s[m] == y;
        if m > 0 {
            assert(rest[m - 1] == y);
        }
    }
    if y == a {
        assert(s[0] == y);
    }
    if rest.contains(y) {
        let m = choose|m: int| 0 <= m < rest.len() && rest[m] == y;
        assert(s[m + 1] == y);
    }
}

proof fn lemma_parse_bottoms(b: Seq<u8>, p: int, top: u64, bs: Seq<u32>, m: int, k: int, y: u64)
    requires
        0 <= p,
        0 <= k <= m <= bs.len(),
        p + 4 * m + 4 <= b.len(),
        forall|j: int| k <= j < m ==> #[trigger] word_at(b, p + 4 * j) == bs[j] && bs[j] != DELIMITER,
        word_at(b, p + 4 * m) == DELIMITER,
    ensures
        values_from(b, p + 4 * k, false, top).contains(y) == ((exists|j: int|
            k <= j < m && y == top | (#[trigger] bs[j] as u64)) || values_from(b, p + 4 * m + 4, true, top).contains(y)),
    decreases m - k,
{
    if k < m {
        assert(word_at(b, p + 4 * k) == bs[k]);
        lemma_parse_bottoms(b, p, top, bs, m, k + 1, y);
        assert(p + 4 * k + 4 == p + 4 * (k + 1));
        lemma_singleton_concat_contains(top | (bs[k] as u64), values_from(b, p + 4 * (k + 1), false, top), y);
        if exists|j: int| k <= j < m && y == top | (#[trigger] bs[j] as u64) {
            let j = choose|j: int| k <= j < m && y == top | (#[trigger] bs[j] as u64);
            if j > k {
                assert(exists|j2: int| k + 1 <= j2 < m && y == top | (#[trigger] bs[j2] as u64));
            }
        }
    }
}

/// Every word of a group's bytes where the parser expects it.
proof fn lemma_group_words(b: Seq<u8>, p: int, grp: BottomGroup)
    requires
        0 <= p,
        p + group_bytes(grp).len() <= b.len(),
        forall|q: int| 0 <= q < group_bytes(grp).len() ==> b[p + q] == #[trigger] group_bytes(grp)[q],
    ensures
        group_bytes(grp).len() == 4 * grp.bottoms@.len() + 8,
        word_at(b, p) == grp.top,
        forall|j: int| 0 <= j < grp.bottoms@.len() ==> #[trigger] word_at(b, p + 4 + 4 * j) == grp.bottoms@[j],
        word_at(b, p + 4 + 4 * grp.bottoms@.len()) == DELIMITER,
{
    let bs = grp.bottoms@;
    let m = bs.len() as int;
    let c = group_bytes(grp);
    lemma_bottoms_layout(bs, m);
    let bb = bottoms_bytes(bs, m);
    assert(c.len() == 4 * m + 8);
    assert forall|q: int| 0 <= q < 4 implies #[trigger] c[q] == word_bytes(grp.top)[q] by {}
    assert(b[p] == c[0] && b[p + 1] == c[1] && b[p + 2] == c[2] && b[p + 3] == c[3]);
    lemma_word_round_trip(b, p, grp.top);
    assert forall|j: int| 0 <= j < m implies #[trigger] word_at(b, p + 4 + 4 * j) == bs[j] by {
        assert forall|q: int| 0 <= q < 4 implies #[trigger] c[4 + 4 * j + q] == word_bytes(bs[j])[q] by {
            assert(c[4 + 4 * j + q] == bb[4 * j + q]);
        }
        assert(b[p + 4 + 4 * j] == c[4 + 4 * j + 0]);
        assert(b[p + 4 + 4 * j + 1] == c[4 + 4 * j + 1]);
        assert(b[p + 4 + 4 * j + 2] == c[4 + 4 * j + 2]);
        assert(b[p + 4 + 4 * j + 3] == c[4 + 4 * j + 3]);
        lemma_word_round_trip(b, p + 4 + 4 * j, bs[j]);
    }
    assert forall|q: int| 0 <= q < 4 implies #[trigger] c[4 + 4 * m + q] == word_bytes(DELIMITER)[q] by {}
    assert(b[p + 4 + 4 * m] == c[4 + 4 * m + 0]);
    assert(b[p + 4 + 4 * m + 1] == c[4 + 4 * m + 1]);
    assert(b[p + 4 + 4 * m + 2] == c[4 + 4 * m + 2]);
    assert(b[p + 4 + 4 * m + 3] == c[4 + 4 * m + 3]);
    lemma_word_round_trip(b, p + 4 + 4 * m, DELIMITER);
}

/// No top and no bottom is the delimiter word.
pub open spec fn free_of_delimiter(groups: Seq<BottomGroup>) -> bool {
    forall|i: int|
        0 <= i < groups.len() ==> (#[trigger] groups[i]).top != DELIMITER && !groups[i].bottoms@.contains(
            DELIMITER,
        )
}

proof fn lemma_parse_groups(g: Seq<BottomGroup>, n: int, k: int, t: u64, y: u64)
    requires
        0 <= k <= n <= g.len(),
        free_of_delimiter(g),
    ensures
        values_from(groups_bytes(g, n), groups_bytes(g, k).len() as int, true, t).contains(y) == (exists|i: int|
            k <= i < n && group_has(#[trigger] g[i], y)),
    decreases n - k,
{
    let b = groups_bytes(g, n);
    let p = groups_bytes(g, k).len() as int;
    if k == n {
        assert(values_from(b, p, true, t) == Seq::<u64>::empty());
    } else {
        let grp = g[k];
        let bs = grp.bottoms@;
        let m = bs.len() as int;
        lemma_groups_prefix(g, k + 1, n);
        assert(groups_bytes(g, k + 1) == groups_bytes(g, k) + group_bytes(grp));
        assert forall|q: int| 0 <= q < group_bytes(grp).len() implies b[p + q] == #[trigger] group_bytes(grp)[q] by {
            assert(b[p + q] == groups_bytes(g, k + 1)[p + q]);
        }
        lemma_group_words(b, p, grp);
        assert(grp.top != DELIMITER);
        assert forall|j: int| 0 <= j < m implies #[trigger] word_at(b, p + 4 + 4 * j) == bs[j] && bs[j] != DELIMITER by {
            if bs[j] == DELIMITER {
                assert(bs.contains(DELIMITER));
            }
        }
        let top = (grp.top as u64) << 32u64;
        lemma_parse_bottoms(b, p + 4, top, bs, m, 0, y);
        assert(p + 4 + 4 * 0 == p + 4);
        assert(p + 4 + 4 * m + 4 == groups_bytes(g, k + 1).len());
        lemma_parse_groups(g, n, k + 1, top, y);
        lemma_join_split(top_of(y), bottom_of(y), y);
        let inner = exists|j: int| 0 <= j < m && y == top | (#[trigger] bs[j] as u64);
        assert(inner == group_has(grp, y)) by {
            if inner {
                let j = choose|j: int| 0 <= j < m && y == top | (#[trigger] bs[j] as u64);
                lemma_join_split(grp.top, bs[j], y);
                assert(bs[j] == bottom_of(y));
            }
            if group_has(grp, y) {
                let j = choose|j: int| 0 <= j < m && bs[j] == bottom_of(y);
                assert(y == top | (bs[j] as u64));
            }
        }
        let rest = exists|i: int| k + 1 <= i < n && group_has(#[trigger] g[i], y);
        let all = exists|i: int| k <= i < n && group_has(#[trigger] g[i], y);
        assert(all == (group_has(grp, y) || rest)) by {
            if all {
                let i = choose|i: int| k <= i < n && group_has(#[trigger] g[i], y);
                if i > k {
                    assert(rest);
                }
            }
        }
    }
}

/// Saving then loading gives the set back: the values that the bytes of a
/// set hold are exactly the values of the set, when no top or bottom is the
/// delimiter word.
pub proof fn lemma_save_load_round_trip(set: RawBoardSet)
    requires
        free_of_delimiter(set.groups@),
    ensures
        forall|y: u64| #[trigger] stream_values(groups_bytes(set.groups@, set.groups@.len() as int)).contains(y)
            == set.has(y),
{
    let n = set.groups@.len() as int;
    assert forall|y: u64| #[trigger] stream_values(groups_bytes(set.groups@, n)).contains(y) == set.has(y) by {
        lemma_parse_groups(set.groups@, n, 0, 0, y);
        assert(groups_bytes(set.groups@, 0).len() == 0);
        let e = exists|i: int| 0 <= i < n && group_has(#[trigger] set.groups@[i], y);
        assert(e == set.has(y));
    }
}

} // verus!
