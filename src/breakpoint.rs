use vstd::prelude::*;

use crate::arch::{
    inject_breakpoints, is_breakpoint_pattern, same_outside, Memory, BREAKPOINTS_PER_PAGE,
    BREAKPOINT_LENGTH, PAGE_SIZE,
};

verus! {

/// Number of `true` entries in `s`.
pub open spec fn count_true(s: Seq<bool>) -> nat
    decreases s.len(),
{
    if s.len() == 0 {
        0
    } else {
        count_true(s.drop_last()) + if s.last() {
            1nat
        } else {
            0nat
        }
    }
}

proof fn lemma_count_update(s: Seq<bool>, i: int, b: bool)
    requires
        0 <= i < s.len(),
    ensures
        count_true(s.update(i, b)) + (if s[i] {
            1int
        } else {
            0int
        }) == count_true(s) + (if b {
            1int
        } else {
            0int
        }),
    decreases s.len(),
{
    if i == s.len() - 1 {
        assert(s.update(i, b).drop_last() =~= s.drop_last());
    } else {
        assert(s.update(i, b).drop_last() =~= s.drop_last().update(i, b));
        lemma_count_update(s.drop_last(), i, b);
    }
}

proof fn lemma_count_none(s: Seq<bool>)
    requires
        forall|i: int| 0 <= i < s.len() ==> !s[i],
    ensures
        count_true(s) == 0,
    decreases s.len(),
{
    if s.len() > 0 {
        lemma_count_none(s.drop_last());
    }
}

proof fn lemma_count_all(s: Seq<bool>)
    requires
        forall|i: int| 0 <= i < s.len() ==> s[i],
    ensures
        count_true(s) == s.len(),
    decreases s.len(),
{
    if s.len() > 0 {
        lemma_count_all(s.drop_last());
    }
}

proof fn lemma_count_bound(s: Seq<bool>)
    ensures
        count_true(s) <= s.len(),
    decreases s.len(),
{
    if s.len() > 0 {
        lemma_count_bound(s.drop_last());
    }
}

proof fn lemma_count_pos(s: Seq<bool>, i: int)
    requires
        0 <= i < s.len(),
        s[i],
    ensures
        count_true(s) >= 1,
{
    lemma_count_update(s, i, false);
}

proof fn lemma_slot_addr(base: int, j: int)
    requires
        base % 4096 == 0,
        0 <= j < 2048,
    ensures
        page_of(base + 2 * j) == base,
        (base + 2 * j) % 2 == 0,
        ((base + 2 * j) - base) / 2 == j,
{
    assert((base + 2 * j) % 4096 == 2 * j) by (nonlinear_arith)
        requires
            base % 4096 == 0,
            0 <= j < 2048,
    ;
    assert(base % 2 == 0) by (nonlinear_arith)
        requires
            base % 4096 == 0,
    ;
}

proof fn lemma_slot_index(x: int, base: int)
    requires
        page_of(x) == base,
        x % 2 == 0,
        base % 4096 == 0,
    ensures
        base <= x < base + 4096,
        x == base + 2 * ((x - base) / 2),
        0 <= (x - base) / 2 < 2048,
{
    assert(base % 2 == 0) by (nonlinear_arith)
        requires
            base % 4096 == 0,
    ;
    let d = x - base;
    assert(d == x % 4096);
    assert(0 <= d < 4096) by (nonlinear_arith)
        requires
            d == x % 4096,
    ;
    assert(d % 2 == 0) by (nonlinear_arith)
        requires
            d == x - base,
            x % 2 == 0,
            base % 2 == 0,
    ;
    assert(d == 2 * (d / 2)) by (nonlinear_arith)
        requires
            d % 2 == 0,
    ;
}

proof fn lemma_distinct_pages(b1: int, b2: int)
    requires
        b1 % 4096 == 0,
        b2 % 4096 == 0,
        b1 < b2,
    ensures
        b1 + 4096 <= b2,
{
    assert(b1 + 4096 <= b2) by (nonlinear_arith)
        requires
            b1 % 4096 == 0,
            b2 % 4096 == 0,
            b1 < b2,
    ;
}

/// Start of the page holding address `a`.
pub open spec fn page_of(a: int) -> int {
    a - a % (PAGE_SIZE as int)
}

/// One page of breakpoint slots; `free[i]` tells whether slot `base + 2 * i` is free.
pub struct BreakpointPage {
    pub base: usize,
    pub nr_free: usize,
    pub free: Vec<bool>,
}

impl BreakpointPage {
    /// Slot address `a` lies on this page and is free.
    pub open spec fn holds_free(&self, a: int) -> bool {
        page_of(a) == self.base && a % 2 == 0 && self.free@[(a - self.base) / 2]
    }
}

/// The pool of executable single-instruction slots.
pub struct BreakpointAllocator {
    pub pages: Vec<BreakpointPage>,
}

impl BreakpointAllocator {
    pub open spec fn wf(&self) -> bool {
        &&& forall|i: int|
            #![trigger self.pages@[i]]
            0 <= i < self.pages@.len() ==> {
                let p = self.pages@[i];
                &&& p.base % PAGE_SIZE == 0
                &&& p.base + PAGE_SIZE <= usize::MAX
                &&& p.free@.len() == BREAKPOINTS_PER_PAGE
                &&& p.nr_free == count_true(p.free@)
            }
        &&& forall|i: int, j: int|
            0 <= i < self.pages@.len() && 0 <= j < self.pages@.len() && i != j
                ==> self.pages@[i].base != self.pages@[j].base
        &&& self.pages@.len() > 1 ==> forall|i: int|
            0 <= i < self.pages@.len() ==> self.pages@[i].nr_free < BREAKPOINTS_PER_PAGE
    }

    /// Slot address `a` is free.
    pub open spec fn is_free(&self, a: int) -> bool {
        exists|i: int| 0 <= i < self.pages@.len() && #[trigger] self.pages@[i].holds_free(a)
    }

    /// The set of free slot addresses across all pages.
    pub open spec fn free_set(&self) -> Set<int> {
        Set::new(|a: int| self.is_free(a))
    }

    /// Slot address `a` lies on a page of the pool and is handed out.
    pub open spec fn is_allocated(&self, a: int) -> bool {
        exists|i: int|
            0 <= i < self.pages@.len() && page_of(a) == #[trigger] self.pages@[i].base && a % 2 == 0
                && !self.pages@[i].free@[(a - self.pages@[i].base) / 2]
    }

    /// `b` is the base of a retained page.
    pub open spec fn has_page(&self, b: int) -> bool {
        exists|i: int| 0 <= i < self.pages@.len() && #[trigger] self.pages@[i].base == b
    }

    pub fn new() -> (r: Self)
        ensures
            r.wf(),
            r.pages@.len() == 0,
            r.free_set() == Set::<int>::empty(),
    {
        let r = BreakpointAllocator { pages: Vec::new() };
        assert(r.free_set() =~= Set::<int>::empty());
        r
    }

    /// Takes the smallest free slot, if there is one.
    fn take_free_slot(&mut self) -> (r: Option<usize>)
        requires
            old(self).wf(),
        ensures
            final(self).wf(),
            final(self).pages@.len() == old(self).pages@.len(),
            forall|b: int| final(self).has_page(b) <==> old(self).has_page(b),
            r is None <==> old(self).free_set() == Set::<int>::empty(),
            r is None ==> *final(self) == *old(self),
            r matches Some(a) ==> {
                &&& old(self).free_set().contains(a as int)
                &&& final(self).free_set() == old(self).free_set().remove(a as int)
                &&& forall|b: int| old(self).free_set().contains(b) ==> a <= b
            },
    {
        let n = self.pages.len();
        let mut best: Option<usize> = None;
        let mut i: usize = 0;
        while i < n
            invariant
                n == self.pages@.len(),
                i <= n,
                self.wf(),
                *self == *old(self),
                best matches Some(k) ==> {
                    &&& k < i
                    &&& self.pages@[k as int].nr_free > 0
                    &&& forall|j: int|
                        0 <= j < i && self.pages@[j].nr_free > 0 ==> self.pages@[k as int].base
                            <= self.pages@[j].base
                },
                best is None ==> forall|j: int| 0 <= j < i ==> self.pages@[j].nr_free == 0,
            decreases n - i,
        {
            if self.pages[i].nr_free > 0 {
                match best {
                    None => {
                        best = Some(i);
                    },
                    Some(k) => {
                        if self.pages[i].base < self.pages[k].base {
                            best = Some(i);
                        }
                    },
                }
            }
            i = i + 1;
        }
        match best {
            None => {
                proof {
                    assert forall|a: int| !self.is_free(a) by {
                        if self.is_free(a) {
                            let k = choose|k: int|
                                0 <= k < self.pages@.len() && #[trigger] self.pages@[k].holds_free(a);
                            let p = self.pages@[k];
                            lemma_slot_index(a, p.base as int);
                            lemma_count_pos(p.free@, (a - p.base) / 2);
                        }
                    }
                    assert(self.free_set() =~= Set::<int>::empty());
                    assert(old(self).free_set() =~= Set::<int>::empty());
                }
                None
            },
            Some(k) => {
                let mut j: usize = 0;
                while j < BREAKPOINTS_PER_PAGE && !self.pages[k].free[j]
                    invariant
                        k < self.pages@.len(),
                        self.wf(),
                        *self == *old(self),
                        self.pages@[k as int].nr_free > 0,
                        best == Some(k),
                        forall|q: int|
                            0 <= q < n && self.pages@[q].nr_free > 0 ==> self.pages@[k as int].base
                                <= self.pages@[q].base,
                        n == self.pages@.len(),
                        self.pages@[k as int].free@.len() == BREAKPOINTS_PER_PAGE,
                        j <= BREAKPOINTS_PER_PAGE,
                        forall|m: int| 0 <= m < j ==> !self.pages@[k as int].free@[m],
                    decreases BREAKPOINTS_PER_PAGE - j,
                {
                    j = j + 1;
                }
                if j == BREAKPOINTS_PER_PAGE {
                    proof {
                        lemma_count_none(self.pages@[k as int].free@);
                    }
                    return None;
                }
                let ghost old_self = *self;
                let mut page = self.pages.remove(k);
                let ghost fv = page.free@;
                page.free.set(j, false);
                proof {
                    lemma_count_update(fv, j as int, false);
                }
                page.nr_free = page.nr_free - 1;
                let base = page.base;
                self.pages.insert(k, page);
                let a = base + 2 * j;
                proof {
                    assert(self.pages@ =~= old_self.pages@.update(k as int, page));
                    lemma_slot_addr(base as int, j as int);
                    assert(old_self.pages@[k as int].holds_free(a as int));
                    assert(old_self.is_free(a as int));
                    assert(old_self.free_set().contains(a as int));
                    assert(old_self.free_set() != Set::<int>::empty());
                    assert forall|b: int| old_self.free_set().contains(b) implies a <= b by {
                        let q = choose|q: int|
                            0 <= q < old_self.pages@.len() && #[trigger] old_self.pages@[q].holds_free(b);
                        let pq = old_self.pages@[q];
                        lemma_slot_index(b, pq.base as int);
                        if q != k {
                            lemma_count_pos(pq.free@, (b - pq.base) / 2);
                            lemma_distinct_pages(base as int, pq.base as int);
                        }
                    }
                    assert forall|x: int| self.is_free(x) <==> old_self.is_free(x) && x != a by {
                        if self.is_free(x) {
                            let q = choose|q: int|
                                0 <= q < self.pages@.len() && #[trigger] self.pages@[q].holds_free(x);
                            assert(old_self.pages@[q].holds_free(x));
                        }
                        if old_self.is_free(x) && x != a {
                            let q = choose|q: int|
                                0 <= q < old_self.pages@.len() && #[trigger] old_self.pages@[q].holds_free(x);
                            if q == k {
                                lemma_slot_index(x, base as int);
                            }
                            assert(self.pages@[q].holds_free(x));
                        }
                    }
                    assert(self.free_set() =~= old_self.free_set().remove(a as int));
                    assert forall|b: int| self.has_page(b) <==> old_self.has_page(b) by {
                        if old_self.has_page(b) {
                            let q = choose|q: int| 0 <= q < old_self.pages@.len() && #[trigger] old_self.pages@[q].base == b;
                            assert(self.pages@[q].base == b);
                        }
                        if self.has_page(b) {
                            let q = choose|q: int| 0 <= q < self.pages@.len() && #[trigger] self.pages@[q].base == b;
                            assert(old_self.pages@[q].base == b);
                        }
                    }
                }
                Some(a)
            },
        }
    }

    /// Index of the page whose base is `b`.
    pub open spec fn page_index(&self, b: int) -> int {
        choose|i: int| 0 <= i < self.pages@.len() && #[trigger] self.pages@[i].base == b
    }

    /// A fresh frame at `b` can become a slot page: it is page aligned, lies
    /// in `mem` and is not a page already.
    pub open spec fn frame_ok(&self, mem: &Memory, b: int) -> bool {
        b % PAGE_SIZE as int == 0 && mem.in_range(b, PAGE_SIZE as int) && !self.has_page(b)
    }

    /// The slots of a fresh page at `b`, but its first.
    pub open spec fn fresh_page_free(b: int) -> Set<int> {
        Set::new(|x: int| page_of(x) == b && x % 2 == 0 && x != b)
    }

    /// The slot that the next allocation hands out: the smallest free slot,
    /// else the last of `frames` when it can become a page.
    pub open spec fn next_slot(&self, mem: &Memory, frames: Seq<usize>) -> Option<usize> {
        if self.free_set() != Set::<int>::empty() {
            Some(
                choose|a: usize|
                    self.free_set().contains(a as int) && forall|b: int|
                        self.free_set().contains(b) ==> a <= b,
            )
        } else if frames.len() > 0 && self.frame_ok(mem, frames.last() as int) {
            Some(frames.last())
        } else {
            None
        }
    }

    /// Records a fresh page at `base` with every slot but the first free.
    fn add_page(&mut self, base: usize)
        requires
            old(self).wf(),
            base % PAGE_SIZE == 0,
            base + PAGE_SIZE <= usize::MAX,
            !old(self).has_page(base as int),
            old(self).free_set() == Set::<int>::empty(),
        ensures
            final(self).wf(),
            final(self).pages@.len() == old(self).pages@.len() + 1,
            forall|b: int| final(self).has_page(b) <==> old(self).has_page(b) || b == base,
            final(self).free_set() == Self::fresh_page_free(base as int),
    {
        let mut free: Vec<bool> = Vec::new();
        free.push(false);
        let mut i: usize = 1;
        while i < BREAKPOINTS_PER_PAGE
            invariant
                1 <= i <= BREAKPOINTS_PER_PAGE,
                free@.len() == i,
                !free@[0],
                forall|m: int| 1 <= m < i ==> free@[m],
            decreases BREAKPOINTS_PER_PAGE - i,
        {
            free.push(true);
            i = i + 1;
        }
        proof {
            let rest = free@.update(0, true);
            lemma_count_all(rest);
            lemma_count_update(rest, 0, false);
            assert(rest.update(0, false) =~= free@);
            assert forall|k: int| 0 <= k < old(self).pages@.len() implies old(self).pages@[k].nr_free
                == 0 by {
                if old(self).pages@[k].nr_free > 0 {
                    let fv = old(self).pages@[k].free@;
                    if forall|m: int| 0 <= m < fv.len() ==> !fv[m] {
                        lemma_count_none(fv);
                    } else {
                        let m = choose|m: int| 0 <= m < fv.len() && fv[m];
                        lemma_slot_addr(old(self).pages@[k].base as int, m);
                        assert(old(self).pages@[k].holds_free(old(self).pages@[k].base + 2 * m));
                        assert(old(self).free_set().contains(old(self).pages@[k].base + 2 * m));
                    }
                }
            }
        }
        let page = BreakpointPage { base, nr_free: BREAKPOINTS_PER_PAGE - 1, free };
        let ghost old_self = *self;
        self.pages.push(page);
        proof {
            let n = old_self.pages@.len() as int;
            assert(self.pages@ =~= old_self.pages@.push(page));
            assert forall|x: int| self.is_free(x) <==> Self::fresh_page_free(base as int).contains(x) by {
                if self.is_free(x) {
                    let q = choose|q: int| 0 <= q < self.pages@.len() && #[trigger] self.pages@[q].holds_free(x);
                    if q < n {
                        assert(old_self.pages@[q].holds_free(x));
                        assert(old_self.free_set().contains(x));
                    } else {
                        lemma_slot_index(x, base as int);
                    }
                }
                if Self::fresh_page_free(base as int).contains(x) {
                    lemma_slot_index(x, base as int);
                    assert(self.pages@[n].holds_free(x));
                }
            }
            assert(self.free_set() =~= Self::fresh_page_free(base as int));
            assert forall|b: int| self.has_page(b) <==> old_self.has_page(b) || b == base by {
                if old_self.has_page(b) {
                    let q = choose|q: int| 0 <= q < old_self.pages@.len() && #[trigger] old_self.pages@[q].base == b;
                    assert(self.pages@[q].base == b);
                }
                if self.has_page(b) {
                    let q = choose|q: int| 0 <= q < self.pages@.len() && #[trigger] self.pages@[q].base == b;
                    if q < n {
                        assert(old_self.pages@[q].base == b);
                    }
                }
                if b == base {
                    assert(self.pages@[n].base == b);
                }
            }
        }
    }

    /// Hands out a slot: the smallest free one, else the first slot of a
    /// fresh page taken from the end of `frames`, which is first filled with
    /// breakpoints. `None` when no slot is free and no usable frame is left.
    pub fn alloc_breakpoint(&mut self, mem: &mut Memory, frames: &mut Vec<usize>) -> (r: Option<
        usize,
    >)
        requires
            old(self).wf(),
            old(mem).wf(),
        ensures
            final(self).wf(),
            final(mem).base == old(mem).base,
            old(self).free_set() != Set::<int>::empty() ==> {
                &&& r matches Some(a) && old(self).free_set().contains(a as int)
                    && final(self).free_set() == old(self).free_set().remove(a as int)
                    && forall|b: int| old(self).free_set().contains(b) ==> a <= b
                &&& final(self).pages@.len() == old(self).pages@.len()
                &&& final(mem).bytes@ == old(mem).bytes@
                &&& final(frames)@ == old(frames)@
            },
            old(self).free_set() == Set::<int>::empty() ==> if old(frames)@.len() > 0
                && old(self).frame_ok(old(mem), old(frames)@.last() as int) {
                let b = old(frames)@.last();
                &&& r == Some(b)
                &&& final(frames)@ == old(frames)@.drop_last()
                &&& final(self).pages@.len() == old(self).pages@.len() + 1
                &&& final(self).has_page(b as int)
                &&& final(self).free_set() == Self::fresh_page_free(b as int)
                &&& is_breakpoint_pattern(final(mem).range(b as int, PAGE_SIZE as int))
                &&& same_outside(old(mem).bytes@, final(mem).bytes@, b - old(mem).base, PAGE_SIZE as int)
            } else {
                &&& r is None
                &&& *final(self) == *old(self)
                &&& final(mem).bytes@ == old(mem).bytes@
                &&& final(frames)@ == old(frames)@
            },
            forall|b: int| old(self).has_page(b) ==> final(self).has_page(b),
            r == old(self).next_slot(old(mem), old(frames)@),
    {
        let slot = self.take_free_slot();
        if slot.is_some() {
            proof {
                let a = slot->0;
                let c = choose|c: usize|
                    old(self).free_set().contains(c as int) && forall|b: int|
                        old(self).free_set().contains(b) ==> c <= b;
                assert(old(self).free_set().contains(a as int) && forall|b: int|
                    old(self).free_set().contains(b) ==> a <= b);
                assert(c <= a && a <= c);
            }
            return slot;
        }
        if frames.len() == 0 {
            return None;
        }
        let base = frames[frames.len() - 1];
        if base % PAGE_SIZE != 0 || !mem.contains(base, PAGE_SIZE) {
            return None;
        }
        let mut k: usize = 0;
        while k < self.pages.len()
            invariant
                k <= self.pages@.len(),
                *self == *old(self),
                *mem == *old(mem),
                *frames == *old(frames),
                frames@.len() > 0,
                base == frames@[frames@.len() - 1],
                old(self).wf(),
                old(self).free_set() == Set::<int>::empty(),
                forall|q: int| 0 <= q < k ==> self.pages@[q].base != base,
            decreases self.pages@.len() - k,
        {
            if self.pages[k].base == base {
                assert(old(self).pages@[k as int].base == base);
                assert(old(frames)@.last() == base);
                assert(old(self).has_page(base as int));
                return None;
            }
            k = k + 1;
        }
        frames.pop();
        inject_breakpoints(mem, base, Some(PAGE_SIZE));
        self.add_page(base);
        Some(base)
    }

    /// Returns slot `addr` to the pool. When that leaves its page wholly free
    /// and another page is retained, the page is dropped and its base pushed
    /// onto `frames`.
    pub fn free_breakpoint(&mut self, addr: usize, frames: &mut Vec<usize>)
        requires
            old(self).wf(),
            old(self).is_allocated(addr as int),
        ensures
            final(self).wf(),
            final(self).pages@.len() >= 1,
            !final(self).is_allocated(addr as int),
            ({
                let b = page_of(addr as int);
                let released = old(self).pages@[old(self).page_index(b)].nr_free + 1
                    == BREAKPOINTS_PER_PAGE && old(self).pages@.len() > 1;
                if released {
                    &&& final(self).free_set() == old(self).free_set().filter(|x: int| page_of(x) != b)
                    &&& final(frames)@ == old(frames)@.push(b as usize)
                    &&& final(self).pages@.len() == old(self).pages@.len() - 1
                    &&& forall|c: int| final(self).has_page(c) <==> old(self).has_page(c) && c != b
                } else {
                    &&& final(self).free_set() == old(self).free_set().insert(addr as int)
                    &&& final(frames)@ == old(frames)@
                    &&& final(self).pages@.len() == old(self).pages@.len()
                    &&& forall|c: int| final(self).has_page(c) <==> old(self).has_page(c)
                }
            }),
    {
        let base = addr - addr % PAGE_SIZE;
        let idx = (addr - base) / 2;
        let ghost old_self = *self;
        let ghost k0 = choose|i: int|
            0 <= i < self.pages@.len() && page_of(addr as int) == #[trigger] self.pages@[i].base
                && addr as int % 2 == 0 && !self.pages@[i].free@[(addr - self.pages@[i].base) / 2];
        proof {
            lemma_slot_index(addr as int, base as int);
            assert(self.page_index(base as int) == k0);
        }
        let mut k: usize = 0;
        while k < self.pages.len() && self.pages[k].base != base
            invariant
                k <= self.pages@.len(),
                *self == old_self,
                forall|q: int| 0 <= q < k ==> self.pages@[q].base != base,
            decreases self.pages@.len() - k,
        {
            k = k + 1;
        }
        proof {
            assert(k == k0);
        }
        let mut page = self.pages.remove(k);
        let ghost fv = page.free@;
        page.free.set(idx, true);
        proof {
            lemma_count_update(fv, idx as int, true);
            lemma_count_bound(fv.update(idx as int, true));
        }
        page.nr_free = page.nr_free + 1;
        let full = page.nr_free == BREAKPOINTS_PER_PAGE;
        self.pages.insert(k, page);
        proof {
            assert(self.pages@ =~= old_self.pages@.update(k as int, page));
            assert(self.pages@[k as int].holds_free(addr as int));
            assert forall|x: int| self.is_free(x) <==> old_self.is_free(x) || x == addr by {
                if self.is_free(x) && x != addr {
                    let q = choose|q: int| 0 <= q < self.pages@.len() && #[trigger] self.pages@[q].holds_free(x);
                    if q == k {
                        lemma_slot_index(x, base as int);
                    }
                    assert(old_self.pages@[q].holds_free(x));
                }
                if old_self.is_free(x) {
                    let q = choose|q: int| 0 <= q < old_self.pages@.len() && #[trigger] old_self.pages@[q].holds_free(x);
                    if q == k {
                        lemma_slot_index(x, base as int);
                    }
                    assert(self.pages@[q].holds_free(x));
                }
            }
            assert(self.free_set() =~= old_self.free_set().insert(addr as int));
            assert forall|c: int| self.has_page(c) <==> old_self.has_page(c) by {
                if old_self.has_page(c) {
                    let q = choose|q: int| 0 <= q < old_self.pages@.len() && #[trigger] old_self.pages@[q].base == c;
                    assert(self.pages@[q].base == c);
                }
                if self.has_page(c) {
                    let q = choose|q: int| 0 <= q < self.pages@.len() && #[trigger] self.pages@[q].base == c;
                    assert(old_self.pages@[q].base == c);
                }
            }
        }
        if full && self.pages.len() > 1 {
            let ghost mid = *self;
            self.pages.remove(k);
            frames.push(base);
            proof {
                assert(self.pages@ =~= mid.pages@.remove(k as int));
                assert forall|x: int| self.is_free(x) <==> old_self.is_free(x) && page_of(x) != base by {
                    if self.is_free(x) {
                        let q = choose|q: int| 0 <= q < self.pages@.len() && #[trigger] self.pages@[q].holds_free(x);
                        let q2 = if q < k { q } else { q + 1 };
                        assert(mid.pages@[q2].holds_free(x));
                        assert(mid.is_free(x));
                        assert(x != addr);
                    }
                    if old_self.is_free(x) && page_of(x) != base {
                        let q = choose|q: int| 0 <= q < old_self.pages@.len() && #[trigger] old_self.pages@[q].holds_free(x);
                        assert(q != k);
                        let q2 = if q < k { q } else { q - 1 };
                        assert(self.pages@[q2].holds_free(x));
                    }
                }
                assert(self.free_set() =~= old_self.free_set().filter(|x: int| page_of(x) != base));
                assert forall|c: int| self.has_page(c) <==> old_self.has_page(c) && c != base by {
                    if mid.has_page(c) && c != base {
                        let q = choose|q: int| 0 <= q < mid.pages@.len() && #[trigger] mid.pages@[q].base == c;
                        let q2 = if q < k { q } else { q - 1 };
                        assert(self.pages@[q2].base == c);
                    }
                    if self.has_page(c) {
                        let q = choose|q: int| 0 <= q < self.pages@.len() && #[trigger] self.pages@[q].base == c;
                        let q2 = if q < k { q } else { q + 1 };
                        assert(mid.pages@[q2].base == c);
                    }
                }
            }
        }
        proof {
            if self.is_allocated(addr as int) {
                let j = choose|j: int|
                    0 <= j < self.pages@.len() && page_of(addr as int) == #[trigger] self.pages@[j].base
                        && addr as int % 2 == 0 && !self.pages@[j].free@[(addr - self.pages@[j].base) / 2];
                assert(self.has_page(base as int));
                if self.free_set().contains(addr as int) {
                    let q = choose|q: int| 0 <= q < self.pages@.len() && #[trigger] self.pages@[q].holds_free(addr as int);
                    assert(q == j);
                }
            }
        }
    }

    /// Whether `a` is a handed-out slot of the pool.
    pub fn is_slot_allocated(&self, a: usize) -> (r: bool)
        requires
            self.wf(),
        ensures
            r == self.is_allocated(a as int),
    {
        if a % 2 != 0 {
            return false;
        }
        let base = a - a % PAGE_SIZE;
        let mut k: usize = 0;
        while k < self.pages.len()
            invariant
                k <= self.pages@.len(),
                base == page_of(a as int),
                a % 2 == 0,
                self.wf(),
                forall|q: int| 0 <= q < k ==> self.pages@[q].base != base,
            decreases self.pages@.len() - k,
        {
            if self.pages[k].base == base {
                proof {
                    lemma_slot_index(a as int, base as int);
                }
                let r = !self.pages[k].free[(a - base) / 2];
                proof {
                    if !r {
                        assert forall|q: int| 0 <= q < self.pages@.len() && page_of(a as int) == #[trigger] self.pages@[q].base
                            implies self.pages@[q].free@[(a - self.pages@[q].base) / 2] by {
                            assert(q == k);
                        }
                    }
                }
                return r;
            }
            k = k + 1;
        }
        false
    }

    /// Number of retained pages.
    pub fn nr_pages(&self) -> (r: usize)
        ensures
            r == self.pages@.len(),
    {
        self.pages.len()
    }

    /// Number of free slots on the page at index `i`.
    pub fn page_free_count(&self, i: usize) -> (r: usize)
        requires
            i < self.pages@.len(),
        ensures
            r == self.pages@[i as int].nr_free,
    {
        self.pages[i].nr_free
    }
}

/// In a well-formed pool each page's free count is the number of its free
/// slots, and a pool in which no slot is handed out retains at most one page.
pub proof fn lemma_pool_counts(pool: &BreakpointAllocator)
    requires
        pool.wf(),
    ensures
        forall|i: int|
            0 <= i < pool.pages@.len() ==> #[trigger] pool.pages@[i].nr_free == count_true(
                pool.pages@[i].free@,
            ),
        (forall|a: int| !pool.is_allocated(a)) ==> pool.pages@.len() <= 1,
{
    if pool.pages@.len() > 1 && forall|a: int| !pool.is_allocated(a) {
        let p = pool.pages@[0];
        assert(p.nr_free < BREAKPOINTS_PER_PAGE);
        if forall|m: int| 0 <= m < p.free@.len() ==> p.free@[m] {
            lemma_count_all(p.free@);
        } else {
            let m = choose|m: int| 0 <= m < p.free@.len() && !p.free@[m];
            lemma_slot_addr(p.base as int, m);
            assert(pool.is_allocated(p.base + 2 * m));
        }
    }
}

} // verus!
