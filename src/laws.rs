//! Properties of the heap engine that relate its states and operations.
use vstd::prelude::*;
use vstd::arithmetic::power2::*;
use crate::buddy::{
    apart, disjoint, free_bytes, is_power_of_two, lemma_free_bytes_nonneg, lemma_free_bytes_zero,
    lemma_live_bytes_nonneg, order_for, split_lists, Heap, OutOfMemory,
};

verus! {

/// In every well-formed heap the bytes handed out never exceed the bytes
/// registered.
pub proof fn lemma_allocated_within_total<const ORDER: usize>(h: Heap<ORDER>)
    requires
        h.wf(),
    ensures
        h.spec_allocated() <= h.spec_total(),
{
    lemma_free_bytes_nonneg(h.lists());
}

/// A block handed out by `allocate` and then given back by `dealloc` with the
/// same size and alignment leaves `allocated` and `total` where they were.
pub proof fn lemma_alloc_then_dealloc_restores<const ORDER: usize>(
    h0: Heap<ORDER>,
    h1: Heap<ORDER>,
    h2: Heap<ORDER>,
    size: usize,
    align: usize,
    addr: usize,
)
    requires
        h0.wf(),
        h0.allocate_post(h1, size, align, Ok(addr)),
        h1.dealloc_post(h2, addr, size, align),
    ensures
        h2.spec_allocated() == h0.spec_allocated(),
        h2.spec_total() == h0.spec_total(),
{
}

/// A heap with nothing registered has nothing handed out, and no request can
/// be served from it, so `allocate` fails with `OutOfMemory`.
pub proof fn lemma_empty_heap_rejects<const ORDER: usize>(h: Heap<ORDER>, size: usize, align: usize)
    requires
        h.wf(),
        h.spec_total() == 0,
    ensures
        h.spec_allocated() == 0,
        !h.can_serve(order_for(size as nat, align as nat)),
        forall|post: Heap<ORDER>, r: Result<usize, OutOfMemory>|
            h.allocate_post(post, size, align, r) ==> r is Err,
{
    lemma_free_bytes_nonneg(h.lists());
    lemma_live_bytes_nonneg(h.live());
    lemma_free_bytes_zero(h.lists());
}

/// Every block that `allocate` hands out for a power-of-two alignment starts
/// at a multiple of it, and every block spans at least the requested size.
pub proof fn lemma_allocation_aligned<const ORDER: usize>(
    h: Heap<ORDER>,
    post: Heap<ORDER>,
    size: usize,
    align: usize,
    addr: usize,
)
    requires
        h.allocate_post(post, size, align, Ok(addr)),
        is_power_of_two(align as nat),
    ensures
        addr as int % align as int == 0,
        pow2(order_for(size as nat, align as nat)) >= size,
{
}

/// In every well-formed heap the live blocks are pairwise disjoint, and none
/// overlaps a free block.
pub proof fn lemma_live_blocks_disjoint<const ORDER: usize>(h: Heap<ORDER>, j1: int, j2: int)
    requires
        h.wf(),
        0 <= j1 < h.live().len(),
        0 <= j2 < h.live().len(),
        j1 != j2,
    ensures
        h.live()[j1].0 + pow2(h.live()[j1].1) <= h.live()[j2].0 || h.live()[j2].0 + pow2(
            h.live()[j2].1,
        ) <= h.live()[j1].0,
        apart(h.lists(), Seq::<(int, nat)>::empty(), h.live()[j1].0, h.live()[j1].1),
{
    assert(disjoint(h.live()[j1].0, h.live()[j1].1, h.live()[j2].0, h.live()[j2].1));
}

/// A block just handed out by `allocate` overlaps no block that was live
/// before, and is itself live afterwards.
pub proof fn lemma_allocation_fresh<const ORDER: usize>(
    h: Heap<ORDER>,
    post: Heap<ORDER>,
    size: usize,
    align: usize,
    addr: usize,
    j: int,
)
    requires
        h.wf(),
        post.wf(),
        h.allocate_post(post, size, align, Ok(addr)),
        0 <= j < h.live().len(),
    ensures
        post.live().last() == (addr as int, order_for(size as nat, align as nat)),
        disjoint(
            addr as int,
            order_for(size as nat, align as nat),
            h.live()[j].0,
            h.live()[j].1,
        ),
{
    let n = h.live().len() as int;
    assert(post.live()[j] == h.live()[j]);
    assert(post.live()[n] == (addr as int, order_for(size as nat, align as nat)));
    assert(disjoint(post.live()[n].0, post.live()[n].1, post.live()[j].0, post.live()[j].1));
}

/// The bytes filed in the lists of order `k` and above.
pub open spec fn room(lists: Seq<Seq<usize>>, k: nat) -> int {
    free_bytes(lists) - free_bytes(lists.take(k as int))
}

proof fn lemma_room_nonneg(lists: Seq<Seq<usize>>, k: nat)
    requires
        k <= lists.len(),
    ensures
        room(lists, k) >= 0,
        (forall|j: int| k <= j < lists.len() ==> #[trigger] lists[j].len() == 0) ==> room(lists, k)
            == 0,
    decreases lists.len(),
{
    if lists.len() == k {
        assert(lists.take(k as int) =~= lists);
    } else {
        let d = lists.drop_last();
        lemma_room_nonneg(d, k);
        assert(d.take(k as int) =~= lists.take(k as int));
        let n = (lists.len() - 1) as nat;
        assert(lists.last().len() * pow2(n) >= 0) by (nonlinear_arith);
        if forall|j: int| k <= j < lists.len() ==> #[trigger] lists[j].len() == 0 {
            assert(lists[n as int].len() == 0);
            assert forall|j: int| k <= j < d.len() implies #[trigger] d[j].len() == 0 by {
                assert(d[j] == lists[j]);
            }
        }
    }
}

/// Room at order `k` means a request of that order can be served.
proof fn lemma_room_serves<const ORDER: usize>(h: Heap<ORDER>, k: nat)
    requires
        h.wf(),
        k < ORDER,
        room(h.lists(), k) > 0,
    ensures
        h.can_serve(k),
{
    if !h.can_serve(k) {
        assert forall|j: int| k <= j < h.lists().len() implies #[trigger] h.lists()[j].len() == 0 by {
            assert(!(k <= j < ORDER && h.lists()[j].len() > 0));
        }
        lemma_room_nonneg(h.lists(), k);
    }
}

/// Serving a request of order `k` takes exactly `2^k` bytes of room at order `k`.
proof fn lemma_allocate_room<const ORDER: usize>(
    h: Heap<ORDER>,
    post: Heap<ORDER>,
    size: usize,
    align: usize,
    addr: usize,
)
    requires
        h.wf(),
        post.wf(),
        h.allocate_post(post, size, align, Ok(addr)),
    ensures
        order_for(size as nat, align as nat) < ORDER,
        room(post.lists(), order_for(size as nat, align as nat)) == room(
            h.lists(),
            order_for(size as nat, align as nat),
        ) - pow2(order_for(size as nat, align as nat)),
{
    let k = order_for(size as nat, align as nat);
    let j = choose|j: int|
        h.source(k, j) && addr == h.lists()[j].last() && post.lists() == split_lists(
            h.lists(),
            j,
            k as int,
            addr as int,
        );
    assert(post.lists().take(k as int) =~= h.lists().take(k as int));
}

/// Taking back a block of order `k` adds exactly `2^k` bytes of room at order `k`.
proof fn lemma_dealloc_room<const ORDER: usize>(
    h: Heap<ORDER>,
    post: Heap<ORDER>,
    addr: usize,
    size: usize,
    align: usize,
)
    requires
        h.wf(),
        post.wf(),
        h.dealloc_post(post, addr, size, align),
    ensures
        room(post.lists(), order_for(size as nat, align as nat)) == room(
            h.lists(),
            order_for(size as nat, align as nat),
        ) + pow2(order_for(size as nat, align as nat)),
{
    let k = order_for(size as nat, align as nat);
    let j = choose|j: int|
        0 <= j < h.live().len() && h.live()[j] == (addr as int, k) && post.live() == h.live().remove(
            j,
        );
    assert(h.live()[j].0 == addr as int);
    assert(h.live()[j].1 < ORDER);
    assert(post.lists().take(k as int) =~= h.lists().take(k as int));
}

proof fn lemma_allocations_room<const ORDER: usize>(
    hs: Seq<Heap<ORDER>>,
    size: usize,
    align: usize,
    addrs: Seq<usize>,
    i: nat,
)
    requires
        0 < i < hs.len(),
        i <= addrs.len(),
        forall|m: int| 0 <= m < hs.len() ==> (#[trigger] hs[m]).wf(),
        forall|m: int|
            0 <= m < i ==> (#[trigger] hs[m]).allocate_post(hs[m + 1], size, align, Ok(addrs[m])),
    ensures
        order_for(size as nat, align as nat) < ORDER,
        room(hs[i as int].lists(), order_for(size as nat, align as nat)) == room(
            hs[0].lists(),
            order_for(size as nat, align as nat),
        ) - i * pow2(order_for(size as nat, align as nat)),
    decreases i,
{
    let k = order_for(size as nat, align as nat);
    assert(hs[i - 1].allocate_post(hs[i as int], size, align, Ok(addrs[i - 1])));
    lemma_allocate_room(hs[i - 1], hs[i as int], size, align, addrs[i - 1]);
    if i > 1 {
        lemma_allocations_room(hs, size, align, addrs, (i - 1) as nat);
        assert(i * pow2(k) == (i - 1) * pow2(k) + pow2(k)) by (nonlinear_arith);
    } else {
        assert(i * pow2(k) == pow2(k)) by (nonlinear_arith)
            requires
                i == 1,
        ;
    }
}

proof fn lemma_frees_room<const ORDER: usize>(
    hs: Seq<Heap<ORDER>>,
    size: usize,
    align: usize,
    addrs: Seq<usize>,
    base: nat,
    i: nat,
)
    requires
        base + i < hs.len(),
        base + i <= base + addrs.len(),
        forall|m: int| 0 <= m < hs.len() ==> (#[trigger] hs[m]).wf(),
        forall|m: int|
            0 <= m < i ==> (#[trigger] hs[(base + m) as int]).dealloc_post(
                hs[(base + m + 1) as int],
                addrs[m],
                size,
                align,
            ),
    ensures
        room(hs[(base + i) as int].lists(), order_for(size as nat, align as nat)) == room(
            hs[base as int].lists(),
            order_for(size as nat, align as nat),
        ) + i * pow2(order_for(size as nat, align as nat)),
    decreases i,
{
    let k = order_for(size as nat, align as nat);
    if i > 0 {
        let m = i - 1;
        assert(hs[(base + m) as int].dealloc_post(hs[(base + m + 1) as int], addrs[m], size, align));
        lemma_dealloc_room(hs[(base + m) as int], hs[(base + m + 1) as int], addrs[m], size, align);
        lemma_frees_room(hs, size, align, addrs, base, (i - 1) as nat);
        assert(i * pow2(k) == (i - 1) * pow2(k) + pow2(k)) by (nonlinear_arith);
    } else {
        assert(i * pow2(k) == 0) by (nonlinear_arith)
            requires
                i == 0,
        ;
    }
}

/// Round trip: after `n` requests of one size and alignment have been served
/// and all `n` blocks have been given back, `n` more requests of that size
/// and alignment are all served, with no memory registered in between.
///
/// `hs` holds the states of the first round (`n` allocations, then `n`
/// deallocations), `gs` those of the second round, and `rs` its results.
pub proof fn lemma_round_trip<const ORDER: usize>(
    hs: Seq<Heap<ORDER>>,
    gs: Seq<Heap<ORDER>>,
    size: usize,
    align: usize,
    n: nat,
    taken: Seq<usize>,
    returned: Seq<usize>,
    rs: Seq<Result<usize, OutOfMemory>>,
)
    requires
        hs.len() == 2 * n + 1,
        taken.len() == n,
        returned.len() == n,
        returned.to_multiset() == taken.to_multiset(),
        forall|m: int| 0 <= m < hs.len() ==> (#[trigger] hs[m]).wf(),
        forall|m: int|
            0 <= m < n ==> (#[trigger] hs[m]).allocate_post(hs[m + 1], size, align, Ok(taken[m])),
        forall|m: int|
            0 <= m < n ==> (#[trigger] hs[(n + m) as int]).dealloc_post(
                hs[(n + m + 1) as int],
                returned[m],
                size,
                align,
            ),
        gs.len() == n + 1,
        rs.len() == n,
        gs[0] == hs[(2 * n) as int],
        forall|m: int| 0 <= m < gs.len() ==> (#[trigger] gs[m]).wf(),
        forall|m: int| 0 <= m < n ==> (#[trigger] gs[m]).allocate_post(gs[(m + 1) as int], size, align, rs[m]),
    ensures
        forall|m: int| 0 <= m < n ==> (#[trigger] rs[m]) is Ok,
{
    if n > 0 {
        let k = order_for(size as nat, align as nat);
        let p = pow2(k) as int;
        lemma_allocations_room(hs, size, align, taken, n);
        lemma_frees_room(hs, size, align, returned, n, n);
        lemma_room_nonneg(hs[n as int].lists(), k);
        lemma_pow2_pos(k);
        assert(room(gs[0].lists(), k) >= n * p);
        lemma_second_round(gs, size, align, rs, n, room(gs[0].lists(), k));
    }
}

proof fn lemma_second_round<const ORDER: usize>(
    gs: Seq<Heap<ORDER>>,
    size: usize,
    align: usize,
    rs: Seq<Result<usize, OutOfMemory>>,
    n: nat,
    start: int,
)
    requires
        n > 0,
        order_for(size as nat, align as nat) < ORDER,
        gs.len() == n + 1,
        rs.len() == n,
        start == room(gs[0].lists(), order_for(size as nat, align as nat)),
        start >= n * pow2(order_for(size as nat, align as nat)),
        forall|m: int| 0 <= m < gs.len() ==> (#[trigger] gs[m]).wf(),
        forall|m: int| 0 <= m < n ==> (#[trigger] gs[m]).allocate_post(gs[(m + 1) as int], size, align, rs[m]),
    ensures
        forall|m: int| 0 <= m < n ==> (#[trigger] rs[m]) is Ok,
{
    assert forall|m: int| 0 <= m < n implies (#[trigger] rs[m]) is Ok by {
        lemma_prefix_ok(gs, size, align, rs, n, start, m as nat);
    }
}

proof fn lemma_prefix_ok<const ORDER: usize>(
    gs: Seq<Heap<ORDER>>,
    size: usize,
    align: usize,
    rs: Seq<Result<usize, OutOfMemory>>,
    n: nat,
    start: int,
    m: nat,
)
    requires
        m < n,
        order_for(size as nat, align as nat) < ORDER,
        gs.len() == n + 1,
        rs.len() == n,
        start == room(gs[0].lists(), order_for(size as nat, align as nat)),
        start >= n * pow2(order_for(size as nat, align as nat)),
        forall|i: int| 0 <= i < gs.len() ==> (#[trigger] gs[i]).wf(),
        forall|i: int| 0 <= i < n ==> (#[trigger] gs[i]).allocate_post(gs[i + 1], size, align, rs[i]),
    ensures
        rs[m as int] is Ok,
        room(gs[(m + 1) as int].lists(), order_for(size as nat, align as nat)) == start - (m + 1) * pow2(
            order_for(size as nat, align as nat),
        ),
    decreases m,
{
    let k = order_for(size as nat, align as nat);
    let p = pow2(k) as int;
    lemma_pow2_pos(k);
    if m > 0 {
        lemma_prefix_ok(gs, size, align, rs, n, start, (m - 1) as nat);
    } else {
        assert(m * p == 0) by (nonlinear_arith)
            requires
                m == 0,
        ;
    }
    assert(room(gs[m as int].lists(), k) == start - m * p);
    assert(start - m * p >= p) by (nonlinear_arith)
        requires
            start >= n * p,
            m < n,
            p > 0,
    ;
    assert(gs[m as int].allocate_post(gs[(m + 1) as int], size, align, rs[m as int]));
    lemma_room_serves(gs[m as int], k);
    let a = rs[m as int]->Ok_0;
    lemma_allocate_room(gs[m as int], gs[(m + 1) as int], size, align, a);
    assert((m + 1) * p == m * p + p) by (nonlinear_arith);
}

} // verus!
