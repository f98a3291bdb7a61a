use crate::allocator::node_bytes;
use crate::memory::{
    align_down, is_power_of_two, lemma_mask_rounds_down, lemma_rounding, round_down, round_up,
    Allocator,
};
use vstd::prelude::*;

verus! {

/// A free range of the heap: `size` bytes from address `start`. In the
/// list of free ranges it stands for the record that the first bytes of
/// the range hold.
#[derive(Clone, Copy, Debug)]
pub struct FreeListNode {
    /// Address of the first byte of the range.
    pub start: usize,
    /// Number of bytes of the range.
    pub size: usize,
}

/// A region that was handed out: the bytes `[start, end)`, of which the
/// caller got those from `ptr` on.
#[derive(Clone, Copy, Debug)]
pub struct LiveRegion {
    /// Address that was returned to the caller.
    pub ptr: usize,
    /// Address of the first byte that the region takes from the heap.
    pub start: usize,
    /// Address just past the last byte of the region.
    pub end: usize,
}

/// A first-fit allocator: the free ranges of the heap are kept in a list
/// in the order of their addresses, a request is served from the first
/// range that holds it, and a released region is put back in address
/// order and joined with the ranges that touch it.
pub struct FreeListAllocator {
    /// Address of the first byte of the heap.
    pub heap_start: usize,
    /// Number of bytes of the heap.
    pub heap_size: usize,
    /// The free ranges, by ascending address.
    pub free_list: Vec<FreeListNode>,
    /// The regions handed out and not yet released.
    pub live: Vec<LiveRegion>,
}

/// Address just past the last byte of a free range.
pub open spec fn end_addr(node: FreeListNode) -> int {
    node.start + node.size
}

/// First address of a free range that is a multiple of `align`.
pub open spec fn effective_start(node: FreeListNode, align: int) -> int {
    round_up(node.start as int, align)
}

/// Last multiple of `align` that is not past the end of a free range.
pub open spec fn effective_end(node: FreeListNode, align: int) -> int {
    round_down(end_addr(node), align)
}

/// Number of bytes that a request of `requested` bytes takes: a request
/// for no bytes is served as a request for one.
pub open spec fn wanted(requested: int) -> int {
    if requested == 0 {
        1
    } else {
        requested
    }
}

/// Whether a free range holds `want` bytes between its first and its last
/// multiple of `align`.
pub open spec fn fits(node: FreeListNode, want: int, align: int) -> bool {
    effective_start(node, align) + want <= effective_end(node, align)
}

/// Index of the first range from `from` on that holds the request; the
/// length of the list if none does.
pub open spec fn first_fit(free: Seq<FreeListNode>, want: int, align: int, from: int) -> int
    decreases free.len() - from,
{
    if from < 0 || from >= free.len() {
        free.len() as int
    } else if fits(free[from], want, align) {
        from
    } else {
        first_fit(free, want, align, from + 1)
    }
}

/// Whether the part of a range before an allocation stays a free range:
/// it does if it holds the record of a free range.
pub open spec fn keeps_head(node: FreeListNode, align: int) -> bool {
    effective_start(node, align) - node.start >= node_bytes()
}

/// Whether the part of a range after an allocation of `want` bytes stays
/// a free range.
pub open spec fn keeps_tail(node: FreeListNode, want: int, align: int) -> bool {
    end_addr(node) - (effective_start(node, align) + want) >= node_bytes()
}

/// The region that an allocation of `want` bytes takes from a range: it
/// starts at the first multiple of `align`, and takes in what is before
/// and after it where that is too small to stay a free range.
pub open spec fn region_of(node: FreeListNode, want: int, align: int) -> LiveRegion {
    let ptr = effective_start(node, align);
    LiveRegion {
        ptr: ptr as usize,
        start: if keeps_head(node, align) {
            ptr as usize
        } else {
            node.start
        },
        end: if keeps_tail(node, want, align) {
            (ptr + want) as usize
        } else {
            end_addr(node) as usize
        },
    }
}

/// The free ranges that an allocation of `want` bytes leaves of a range.
pub open spec fn remainders(node: FreeListNode, want: int, align: int) -> Seq<FreeListNode> {
    let ptr = effective_start(node, align);
    let head = if keeps_head(node, align) {
        seq![FreeListNode { start: node.start, size: (ptr - node.start) as usize }]
    } else {
        Seq::<FreeListNode>::empty()
    };
    let tail = if keeps_tail(node, want, align) {
        seq![
            FreeListNode { start: (ptr + want) as usize, size: (end_addr(node) - ptr - want) as usize },
        ]
    } else {
        Seq::<FreeListNode>::empty()
    };
    head + tail
}

/// The list of free ranges after range `k` served an allocation.
pub open spec fn free_after_allocate(
    free: Seq<FreeListNode>,
    k: int,
    want: int,
    align: int,
) -> Seq<FreeListNode> {
    free.subrange(0, k) + remainders(free[k], want, align) + free.subrange(k + 1, free.len() as int)
}

/// Index at which a range that starts at `start` enters the list: that of
/// the first range from `from` on that starts after it.
pub open spec fn position(free: Seq<FreeListNode>, start: int, from: int) -> int
    decreases free.len() - from,
{
    if from < 0 || from >= free.len() || free[from].start > start {
        from
    } else {
        position(free, start, from + 1)
    }
}

/// The list of free ranges after the bytes `[start, end)` were released:
/// they enter the list in address order, joined with the range before
/// them and the range after them where those touch them.
pub open spec fn free_after_release(free: Seq<FreeListNode>, start: int, end: int) -> Seq<
    FreeListNode,
> {
    let at = position(free, start, 0);
    let joins_before = at > 0 && end_addr(free[at - 1]) == start;
    let joins_after = at < free.len() && free[at].start == end;
    let first = if joins_before {
        free[at - 1].start as int
    } else {
        start
    };
    let last = if joins_after {
        end_addr(free[at])
    } else {
        end
    };
    free.subrange(
        0,
        if joins_before {
            at - 1
        } else {
            at
        },
    ).push(FreeListNode { start: first as usize, size: (last - first) as usize }) + free.subrange(
        if joins_after {
            at + 1
        } else {
            at
        },
        free.len() as int,
    )
}

/// Whether two ranges of addresses have no byte in common.
pub open spec fn apart(a_start: int, a_end: int, b_start: int, b_end: int) -> bool {
    a_end <= b_start || b_end <= a_start
}

/// The free ranges lie in the heap `[lo, hi)`, are not empty, ascend, and
/// no two of them touch.
pub open spec fn free_ok(free: Seq<FreeListNode>, lo: int, hi: int) -> bool {
    &&& forall|i: int|
        0 <= i < free.len() ==> lo <= (#[trigger] free[i]).start && free[i].size > 0 && end_addr(
            free[i],
        ) <= hi
    &&& forall|i: int, j: int|
        0 <= i < j < free.len() ==> end_addr(#[trigger] free[i]) < (#[trigger] free[j]).start
}

/// The live regions lie in the heap `[lo, hi)`, hold the address that was
/// returned for them, and have no byte in common with one another or with
/// a free range.
pub open spec fn live_ok(live: Seq<LiveRegion>, free: Seq<FreeListNode>, lo: int, hi: int) -> bool {
    &&& forall|j: int|
        0 <= j < live.len() ==> lo <= (#[trigger] live[j]).start <= live[j].ptr < live[j].end
            <= hi
    &&& forall|j: int, k: int|
        0 <= j < k < live.len() ==> apart(
            (#[trigger] live[j]).start as int,
            live[j].end as int,
            (#[trigger] live[k]).start as int,
            live[k].end as int,
        )
    &&& forall|i: int, j: int|
        0 <= i < free.len() && 0 <= j < live.len() ==> apart(
            (#[trigger] free[i]).start as int,
            end_addr(free[i]),
            (#[trigger] live[j]).start as int,
            live[j].end as int,
        )
}

/// What the list of free ranges holds after range `k` served an
/// allocation, index by index.
pub proof fn lemma_free_after_allocate(free: Seq<FreeListNode>, k: int, want: int, align: int)
    requires
        0 <= k < free.len(),
    ensures
        ({
            let rest = remainders(free[k], want, align);
            let after = free_after_allocate(free, k, want, align);
            &&& after.len() == free.len() - 1 + rest.len()
            &&& forall|i: int| 0 <= i < k ==> after[i] == free[i]
            &&& forall|i: int| 0 <= i < rest.len() ==> after[k + i] == rest[i]
            &&& forall|i: int|
                k + rest.len() <= i < after.len() ==> after[i] == free[i - rest.len() + 1]
        }),
{
}

/// Serving an allocation from a range that holds it keeps the free ranges
/// and the live regions in order.
pub proof fn lemma_allocate_ok(
    free: Seq<FreeListNode>,
    live: Seq<LiveRegion>,
    lo: int,
    hi: int,
    k: int,
    want: int,
    align: int,
)
    requires
        free_ok(free, lo, hi),
        live_ok(live, free, lo, hi),
        hi <= usize::MAX,
        0 <= k < free.len(),
        want >= 1,
        align >= 1,
        fits(free[k], want, align),
    ensures
        free_ok(free_after_allocate(free, k, want, align), lo, hi),
        live_ok(
            live.push(region_of(free[k], want, align)),
            free_after_allocate(free, k, want, align),
            lo,
            hi,
        ),
        region_of(free[k], want, align).ptr == effective_start(free[k], align),
        region_of(free[k], want, align).end >= effective_start(free[k], align) + want,
{
    let node = free[k];
    let rest = remainders(node, want, align);
    let after = free_after_allocate(free, k, want, align);
    let region = region_of(node, want, align);
    let grown = live.push(region);
    lemma_free_after_allocate(free, k, want, align);
    lemma_rounding(node.start as int, align);
    lemma_rounding(end_addr(node), align);
    assert(node.start >= lo && end_addr(node) <= hi);
    // every range of the new list lies inside a range of the old one
    assert forall|i: int| 0 <= i < after.len() implies lo <= (#[trigger] after[i]).start
        && after[i].size > 0 && end_addr(after[i]) <= hi && ((i < k && after[i] == free[i]) || (i
        >= k + rest.len() && after[i] == free[i - rest.len() + 1]) || (k <= i < k + rest.len()
        && node.start <= after[i].start && end_addr(after[i]) <= end_addr(node) && apart(
        after[i].start as int,
        end_addr(after[i]),
        region.start as int,
        region.end as int,
    ))) by {
        if i < k {
            assert(after[i] == free[i]);
        } else if i >= k + rest.len() {
            assert(after[i] == free[i - rest.len() + 1]);
        } else {
            assert(after[i] == rest[i - k]);
        }
    }
    assert forall|i: int, j: int| 0 <= i < j < after.len() implies end_addr(#[trigger] after[i])
        < (#[trigger] after[j]).start by {
        let oi = if i < k {
            i
        } else if i >= k + rest.len() {
            i - rest.len() + 1
        } else {
            k
        };
        let oj = if j < k {
            j
        } else if j >= k + rest.len() {
            j - rest.len() + 1
        } else {
            k
        };
        if oi < oj {
            assert(end_addr(free[oi]) < free[oj].start);
        } else {
            assert(after[i] == rest[i - k]);
            assert(after[j] == rest[j - k]);
        }
    }
    assert forall|j: int| 0 <= j < grown.len() implies lo <= (#[trigger] grown[j]).start
        <= grown[j].ptr < grown[j].end <= hi by {
        if j < live.len() {
            assert(grown[j] == live[j]);
        }
    }
    assert forall|j: int, m: int| 0 <= j < m < grown.len() implies apart(
        (#[trigger] grown[j]).start as int,
        grown[j].end as int,
        (#[trigger] grown[m]).start as int,
        grown[m].end as int,
    ) by {
        assert(grown[j] == live[j]);
        if m < live.len() {
            assert(grown[m] == live[m]);
        } else {
            assert(apart(
                free[k].start as int,
                end_addr(free[k]),
                live[j].start as int,
                live[j].end as int,
            ));
        }
    }
    assert forall|i: int, j: int| 0 <= i < after.len() && 0 <= j < grown.len() implies apart(
        (#[trigger] after[i]).start as int,
        end_addr(after[i]),
        (#[trigger] grown[j]).start as int,
        grown[j].end as int,
    ) by {
        let oi = if i < k {
            i
        } else if i >= k + rest.len() {
            i - rest.len() + 1
        } else {
            k
        };
        if j < live.len() {
            assert(grown[j] == live[j]);
            assert(apart(
                free[oi].start as int,
                end_addr(free[oi]),
                live[j].start as int,
                live[j].end as int,
            ));
        } else {
            if oi < k {
                assert(end_addr(free[oi]) < free[k].start);
            } else if oi > k {
                assert(end_addr(free[k]) < free[oi].start);
            }
        }
    }
}

/// Where a released range enters the list: every range before that index
/// starts at or before it, and the range at that index starts after it.
pub proof fn lemma_position(free: Seq<FreeListNode>, start: int, from: int)
    requires
        0 <= from <= free.len(),
    ensures
        from <= position(free, start, from) <= free.len(),
        forall|i: int| from <= i < position(free, start, from) ==> (#[trigger] free[i]).start <= start,
        position(free, start, from) < free.len() ==> free[position(free, start, from)].start
            > start,
    decreases free.len() - from,
{
    if from < free.len() && free[from].start <= start {
        lemma_position(free, start, from + 1);
    }
}

/// What the list of free ranges holds after a release, index by index.
pub proof fn lemma_free_after_release(free: Seq<FreeListNode>, start: int, end: int)
    ensures
        ({
            let at = position(free, start, 0);
            let joins_before = at > 0 && end_addr(free[at - 1]) == start;
            let joins_after = at < free.len() && free[at].start == end;
            let before = if joins_before {
                at - 1
            } else {
                at
            };
            let behind = if joins_after {
                at + 1
            } else {
                at
            };
            let after = free_after_release(free, start, end);
            &&& 0 <= before <= at <= behind <= free.len()
            &&& after.len() == before + 1 + free.len() - behind
            &&& forall|i: int| 0 <= i < before ==> after[i] == free[i]
            &&& after[before].start == (if joins_before {
                free[at - 1].start as int
            } else {
                start
            }) as usize
            &&& after[before].size == ((if joins_after {
                end_addr(free[at])
            } else {
                end
            }) - (if joins_before {
                free[at - 1].start as int
            } else {
                start
            })) as usize
            &&& forall|i: int| before < i < after.len() ==> after[i] == free[i - before - 1 + behind]
        }),
{
    lemma_position(free, start, 0);
}

/// Releasing a live region keeps the free ranges and the live regions in
/// order.
pub proof fn lemma_release_ok(
    free: Seq<FreeListNode>,
    live: Seq<LiveRegion>,
    lo: int,
    hi: int,
    j: int,
)
    requires
        free_ok(free, lo, hi),
        live_ok(live, free, lo, hi),
        hi <= usize::MAX,
        0 <= j < live.len(),
    ensures
        free_ok(free_after_release(free, live[j].start as int, live[j].end as int), lo, hi),
        live_ok(
            live.remove(j),
            free_after_release(free, live[j].start as int, live[j].end as int),
            lo,
            hi,
        ),
{
    let region = live[j];
    let start = region.start as int;
    let end = region.end as int;
    let at = position(free, start, 0);
    let joins_before = at > 0 && end_addr(free[at - 1]) == start;
    let joins_after = at < free.len() && free[at].start == end;
    let before = if joins_before {
        at - 1
    } else {
        at
    };
    let behind = if joins_after {
        at + 1
    } else {
        at
    };
    let after = free_after_release(free, start, end);
    let fewer = live.remove(j);
    lemma_position(free, start, 0);
    lemma_free_after_release(free, start, end);
    // the released region lies between the ranges before `at` and those from `at` on
    assert forall|i: int| 0 <= i < free.len() implies (i < at ==> end_addr(#[trigger] free[i])
        <= start) && (i >= at ==> end <= free[i].start) by {
        assert(apart(free[i].start as int, end_addr(free[i]), live[j].start as int, live[j].end as int));
        if i >= at && at < free.len() {
            if i > at {
                assert(end_addr(free[at]) < free[i].start);
            }
        }
    }
    let first = after[before].start as int;
    let last = end_addr(after[before]);
    assert(first <= start && end <= last);
    assert forall|i: int| 0 <= i < after.len() implies lo <= (#[trigger] after[i]).start
        && after[i].size > 0 && end_addr(after[i]) <= hi by {
        if i < before {
            assert(after[i] == free[i]);
        } else if i > before {
            assert(after[i] == free[i - before - 1 + behind]);
        }
    }
    assert forall|a: int, b: int| 0 <= a < b < after.len() implies end_addr(#[trigger] after[a])
        < (#[trigger] after[b]).start by {
        if a < before {
            assert(after[a] == free[a]);
            if at > 0 {
                if a < at - 1 {
                    assert(end_addr(free[a]) < free[at - 1].start);
                }
            }
        }
        if b > before {
            assert(after[b] == free[b - before - 1 + behind]);
            if at < free.len() {
                if b - before - 1 + behind > at {
                    assert(end_addr(free[at]) < free[b - before - 1 + behind].start);
                }
            }
        }
        if a < before && b > before {
            assert(end_addr(free[a]) < free[b - before - 1 + behind].start);
        }
    }
    assert forall|m: int| 0 <= m < fewer.len() implies lo <= (#[trigger] fewer[m]).start
        <= fewer[m].ptr < fewer[m].end <= hi && fewer[m] == live[if m < j {
        m
    } else {
        m + 1
    }] by {}
    assert forall|m: int, n: int| 0 <= m < n < fewer.len() implies apart(
        (#[trigger] fewer[m]).start as int,
        fewer[m].end as int,
        (#[trigger] fewer[n]).start as int,
        fewer[n].end as int,
    ) by {
        let om = if m < j {
            m
        } else {
            m + 1
        };
        let on = if n < j {
            n
        } else {
            n + 1
        };
        assert(apart(
            live[om].start as int,
            live[om].end as int,
            live[on].start as int,
            live[on].end as int,
        ));
    }
    assert forall|i: int, m: int| 0 <= i < after.len() && 0 <= m < fewer.len() implies apart(
        (#[trigger] after[i]).start as int,
        end_addr(after[i]),
        (#[trigger] fewer[m]).start as int,
        fewer[m].end as int,
    ) by {
        let om = if m < j {
            m
        } else {
            m + 1
        };
        assert(fewer[m] == live[om]);
        if i < before {
            assert(apart(
                free[i].start as int,
                end_addr(free[i]),
                live[om].start as int,
                live[om].end as int,
            ));
        } else if i > before {
            let oi = i - before - 1 + behind;
            assert(apart(
                free[oi].start as int,
                end_addr(free[oi]),
                live[om].start as int,
                live[om].end as int,
            ));
        } else {
            if om < j {
                assert(apart(
                    live[om].start as int,
                    live[om].end as int,
                    live[j].start as int,
                    live[j].end as int,
                ));
            } else {
                assert(apart(
                    live[j].start as int,
                    live[j].end as int,
                    live[om].start as int,
                    live[om].end as int,
                ));
            }
            if joins_before {
                assert(apart(
                    free[at - 1].start as int,
                    end_addr(free[at - 1]),
                    live[om].start as int,
                    live[om].end as int,
                ));
            }
            if joins_after {
                assert(apart(
                    free[at].start as int,
                    end_addr(free[at]),
                    live[om].start as int,
                    live[om].end as int,
                ));
            }
        }
    }
}

/// Index of the live region that was returned as `ptr`.
pub open spec fn live_index(live: Seq<LiveRegion>, ptr: usize) -> int {
    choose|j: int| 0 <= j < live.len() && (#[trigger] live[j]).ptr == ptr
}

impl FreeListAllocator {
    /// Address just past the last byte of the heap.
    pub open spec fn heap_end(&self) -> int {
        self.heap_start + self.heap_size
    }

    /// The heap does not start at address 0 and ends inside the address
    /// space; the free ranges and the live regions lie in it and have no
    /// byte in common; the free ranges ascend and no two of them touch.
    pub open spec fn inv(&self) -> bool {
        &&& self.heap_start > 0
        &&& self.heap_end() <= usize::MAX
        &&& free_ok(self.free_list@, self.heap_start as int, self.heap_end())
        &&& live_ok(self.live@, self.free_list@, self.heap_start as int, self.heap_end())
    }

    /// An allocator over the heap at `heap_start`, whose size is
    /// `heap_size` rounded up to a whole number of machine words. The heap
    /// is one free range.
    pub fn new(heap_start: usize, heap_size: usize) -> (r: Self)
        requires
            heap_start > 0,
            heap_size > 0,
            heap_start + heap_size + usize::BITS / 8 <= usize::MAX,
        ensures
            r.inv(),
            r.heap_start == heap_start,
            r.heap_size == round_up(heap_size as int, usize::BITS as int / 8),
            r.free_list@ == seq![FreeListNode { start: heap_start, size: r.heap_size }],
            r.live@ == Seq::<LiveRegion>::empty(),
    {
        let word: usize = usize::BITS as usize / 8;
        proof {
            vstd::arithmetic::power2::lemma2_to64();
            assert(word == vstd::arithmetic::power2::pow2(2) || word
                == vstd::arithmetic::power2::pow2(3));
            lemma_rounding(heap_size as int, word as int);
        }
        let heap_size: usize = crate::memory::align_up(heap_size, word);
        let mut free_list: Vec<FreeListNode> = Vec::new();
        free_list.push(FreeListNode { start: heap_start, size: heap_size });
        FreeListAllocator { heap_start, heap_size, free_list, live: Vec::new() }
    }

    /// Takes range `k` out of the list of free ranges.
    fn remove_node(&mut self, k: usize) -> (node: FreeListNode)
        requires
            k < old(self).free_list@.len(),
        ensures
            node == old(self).free_list@[k as int],
            final(self).free_list@ == old(self).free_list@.remove(k as int),
            final(self).live == old(self).live,
            final(self).heap_start == old(self).heap_start,
            final(self).heap_size == old(self).heap_size,
    {
        self.free_list.remove(k)
    }
}

impl Allocator for FreeListAllocator {
    open spec fn wf(&self) -> bool {
        self.inv()
    }

    /// A request is served if some free range holds it.
    open spec fn can_allocate(&self, size: usize, align: usize) -> bool {
        first_fit(self.free_list@, wanted(size as int), align as int, 0) < self.free_list@.len()
    }

    /// `dealloc` takes the address of every live region.
    open spec fn is_allocated(&self, ptr: usize) -> bool {
        exists|j: int| 0 <= j < self.live@.len() && (#[trigger] self.live@[j]).ptr == ptr
    }

    /// The first multiple of `align` in the first range that holds the
    /// request, and the number of bytes from there to the end of the region
    /// that the request takes.
    open spec fn allocated(&self, size: usize, align: usize) -> (usize, usize) {
        let k = first_fit(self.free_list@, wanted(size as int), align as int, 0);
        let region = region_of(self.free_list@[k], wanted(size as int), align as int);
        if self.can_allocate(size, align) {
            (region.ptr, (region.end - region.ptr) as usize)
        } else {
            (0, 0)
        }
    }

    /// A request that is served leaves of the range that served it what
    /// can stay a free range, and adds the region to the live ones; one
    /// that is not served changes nothing.
    open spec fn after_allocate(&self, size: usize, align: usize, after: &Self) -> bool {
        let want = wanted(size as int);
        let k = first_fit(self.free_list@, want, align as int, 0);
        &&& after.heap_start == self.heap_start
        &&& after.heap_size == self.heap_size
        &&& if self.can_allocate(size, align) {
            &&& after.free_list@ == free_after_allocate(self.free_list@, k, want, align as int)
            &&& after.live@ == self.live@.push(region_of(self.free_list@[k], want, align as int))
        } else {
            &&& after.free_list@ == self.free_list@
            &&& after.live@ == self.live@
        }
    }

    /// The region that was returned as `ptr` is no longer live, and its
    /// bytes are in the list of free ranges, joined with the ranges that
    /// touch them.
    open spec fn after_dealloc(&self, ptr: usize, after: &Self) -> bool {
        let j = live_index(self.live@, ptr);
        &&& after.heap_start == self.heap_start
        &&& after.heap_size == self.heap_size
        &&& after.live@ == self.live@.remove(j)
        &&& after.free_list@ == free_after_release(
            self.free_list@,
            self.live@[j].start as int,
            self.live@[j].end as int,
        )
    }

    /// Allocates `requested_size` bytes aligned to `requested_align` from
    /// the first free range that holds them between its first and its last
    /// multiple of the alignment. The region starts at that first
    /// multiple. What the range has before and after the region stays a
    /// free range where it holds the record of one, and goes with the
    /// region where it does not. Returns the address of the region and the
    /// number of bytes from there to its end.
    fn allocate(&mut self, requested_size: usize, requested_align: usize) -> (r: (usize, usize))
        ensures
            final(self).heap_start == old(self).heap_start,
            final(self).heap_size == old(self).heap_size,
            ({
                let want = wanted(requested_size as int);
                let align = requested_align as int;
                let k = first_fit(old(self).free_list@, want, align, 0);
                if r.0 == 0 {
                    &&& final(self).free_list@ == old(self).free_list@
                    &&& final(self).live@ == old(self).live@
                } else {
                    let region = region_of(old(self).free_list@[k], want, align);
                    &&& r.0 == effective_start(old(self).free_list@[k], align)
                    &&& r.0 % requested_align == 0
                    &&& r.1 == region.end - r.0
                    &&& final(self).free_list@ == free_after_allocate(
                        old(self).free_list@,
                        k,
                        want,
                        align,
                    )
                    &&& final(self).live@ == old(self).live@.push(region)
                }
            }),
    {
        let want: usize = if requested_size == 0 {
            1
        } else {
            requested_size
        };
        let record: usize = 3 * (usize::BITS as usize / 8);
        let ghost free = self.free_list@;
        let ghost align = requested_align as int;
        let mut k: usize = 0;
        while k < self.free_list.len()
            invariant
                self == old(self),
                self.inv(),
                free == self.free_list@,
                k <= free.len(),
                align == requested_align,
                is_power_of_two(align),
                want == wanted(requested_size as int),
                record == node_bytes(),
                first_fit(free, want as int, align, 0) == first_fit(free, want as int, align, k as int),
            decreases free.len() - k,
        {
            let node: FreeListNode = self.free_list[k];
            proof {
                lemma_mask_rounds_down(node.start, requested_align);
                lemma_mask_rounds_down((node.start + node.size) as usize, requested_align);
                lemma_rounding(node.start as int, align);
                lemma_rounding(end_addr(node), align);
            }
            let end: usize = node.start + node.size;
            let last: usize = align_down(end, requested_align);
            let down: usize = align_down(node.start, requested_align);
            let aligned: Option<usize> = if down == node.start {
                Some(down)
            } else if requested_align > end - down {
                None
            } else {
                Some(down + requested_align)
            };
            match aligned {
                Some(first) => {
                    if first <= last && want <= last - first {
                        let head: usize = first - node.start;
                        let tail_start: usize = first + want;
                        let tail: usize = end - tail_start;
                        let region = LiveRegion {
                            ptr: first,
                            start: if head >= record {
                                first
                            } else {
                                node.start
                            },
                            end: if tail >= record {
                                tail_start
                            } else {
                                end
                            },
                        };
                        proof {
                            lemma_allocate_ok(
                                free,
                                self.live@,
                                self.heap_start as int,
                                self.heap_end(),
                                k as int,
                                want as int,
                                align,
                            );
                            assert(region == region_of(node, want as int, align));
                        }
                        self.remove_node(k);
                        if tail >= record {
                            self.free_list.insert(k, FreeListNode { start: tail_start, size: tail });
                        }
                        if head >= record {
                            self.free_list.insert(k, FreeListNode { start: node.start, size: head });
                        }
                        self.live.push(region);
                        proof {
                            assert(self.free_list@ =~= free_after_allocate(
                                free,
                                k as int,
                                want as int,
                                align,
                            ));
                            assert(self.live@[self.live@.len() - 1].ptr == first);
                            assert forall|p: usize| old(self).is_allocated(p) implies self.is_allocated(
                                p,
                            ) by {
                                let j = choose|j: int|
                                    0 <= j < old(self).live@.len() && (
                                    #[trigger] old(self).live@[j]).ptr == p;
                                assert(self.live@[j].ptr == p);
                            }
                        }
                        return (first, region.end - first);
                    }
                },
                None => {},
            }
            k += 1;
        }
        (0, 0)
    }

    /// Releases the region that was returned as `allocated_ptr`: its bytes
    /// enter the list of free ranges in address order, joined with the
    /// range before them and the range after them where those touch them.
    fn dealloc(&mut self, allocated_ptr: usize)
        ensures
            final(self).heap_start == old(self).heap_start,
            final(self).heap_size == old(self).heap_size,
            ({
                let j = live_index(old(self).live@, allocated_ptr);
                &&& final(self).live@ == old(self).live@.remove(j)
                &&& final(self).free_list@ == free_after_release(
                    old(self).free_list@,
                    old(self).live@[j].start as int,
                    old(self).live@[j].end as int,
                )
            }),
    {
        let ghost free = self.free_list@;
        let ghost live = self.live@;
        let ghost found = live_index(live, allocated_ptr);
        let count: usize = self.live.len();
        let mut j: usize = 0;
        while self.live[j].ptr != allocated_ptr
            invariant
                self == old(self),
                live == self.live@,
                live.len() == count,
                0 <= j <= found < live.len(),
                live[found].ptr == allocated_ptr,
            decreases live.len() - j,
        {
            j += 1;
        }
        proof {
            if j != found {
                assert(apart(
                    live[j as int].start as int,
                    live[j as int].end as int,
                    live[found].start as int,
                    live[found].end as int,
                ));
            }
            lemma_release_ok(free, live, self.heap_start as int, self.heap_end(), j as int);
            lemma_position(free, live[j as int].start as int, 0);
        }
        let region: LiveRegion = self.live.remove(j);
        let mut at: usize = 0;
        while at < self.free_list.len() && self.free_list[at].start <= region.start
            invariant
                free == self.free_list@,
                at <= free.len(),
                position(free, region.start as int, 0) == position(
                    free,
                    region.start as int,
                    at as int,
                ),
            decreases free.len() - at,
        {
            at += 1;
        }
        let mut start: usize = region.start;
        let mut end: usize = region.end;
        let mut slot: usize = at;
        if at < self.free_list.len() && self.free_list[at].start == end {
            let next = self.remove_node(at);
            end = next.start + next.size;
        }
        if at > 0 && self.free_list[at - 1].start + self.free_list[at - 1].size == start {
            let previous = self.remove_node(at - 1);
            start = previous.start;
            slot = at - 1;
        }
        self.free_list.insert(slot, FreeListNode { start, size: end - start });
        proof {
            assert(self.free_list@ =~= free_after_release(
                free,
                region.start as int,
                region.end as int,
            ));
            assert forall|p: usize|
                p != allocated_ptr && old(self).is_allocated(p) implies self.is_allocated(p) by {
                let m = choose|m: int|
                    0 <= m < old(self).live@.len() && (#[trigger] old(self).live@[m]).ptr == p;
                let n = if m < j {
                    m
                } else {
                    m - 1
                };
                assert(self.live@[n].ptr == p);
            }
        }
    }
}

} // verus!
