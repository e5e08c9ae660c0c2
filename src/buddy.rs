//! The buddy-system heap engine: free lists indexed by order, with region
//! registration, allocation by splitting and deallocation by coalescing.
//!
//! A block of order `k` spans `2^k` bytes and starts at a multiple of `2^k`.
//! The smallest order is that of one 64-bit machine word.
use vstd::prelude::*;
use vstd::arithmetic::power2::*;
use vstd::arithmetic::div_mod::*;
use crate::list::List;

verus! {

/// The order of the smallest block the engine tracks.
pub const MIN_ORDER: usize = 3;

/// The size in bytes of the smallest block.
pub const MIN_BLOCK: usize = 8;

/// A block of order `k` at `a` is aligned to its size and lies in the address space.
pub open spec fn block_ok(a: int, k: nat) -> bool {
    &&& MIN_ORDER <= k
    &&& 0 <= a
    &&& a % (pow2(k) as int) == 0
    &&& pow2(k) <= usize::MAX
    &&& a + pow2(k) <= usize::MAX + 1
}

/// The byte ranges of two blocks do not intersect.
pub open spec fn disjoint(a1: int, k1: nat, a2: int, k2: nat) -> bool {
    a1 + pow2(k1) <= a2 || a2 + pow2(k2) <= a1
}

/// The first block lies inside the second.
pub open spec fn within(a1: int, k1: nat, a2: int, k2: nat) -> bool {
    a2 <= a1 && a1 + pow2(k1) <= a2 + pow2(k2)
}

/// Every filed address is a well-formed block of its list's order.
pub open spec fn free_ok(lists: Seq<Seq<usize>>) -> bool {
    forall|k: int, i: int|
        0 <= k < lists.len() && 0 <= i < lists[k].len() ==> block_ok(
            #[trigger] lists[k][i] as int,
            k as nat,
        )
}

/// No two filed blocks overlap, and no address is filed twice.
pub open spec fn free_disjoint(lists: Seq<Seq<usize>>) -> bool {
    forall|k1: int, i1: int, k2: int, i2: int|
        0 <= k1 < lists.len() && 0 <= i1 < lists[k1].len() && 0 <= k2 < lists.len() && 0 <= i2
            < lists[k2].len() && (k1 != k2 || i1 != i2) ==> disjoint(
            #[trigger] lists[k1][i1] as int,
            k1 as nat,
            #[trigger] lists[k2][i2] as int,
            k2 as nat,
        )
}

/// Every live block is well formed and of an order below `n`.
pub open spec fn live_ok(live: Seq<(int, nat)>, n: nat) -> bool {
    forall|j: int| 0 <= j < live.len() ==> block_ok(#[trigger] live[j].0, live[j].1) && live[j].1 < n
}

/// No two live blocks overlap.
pub open spec fn live_disjoint(live: Seq<(int, nat)>) -> bool {
    forall|j1: int, j2: int|
        0 <= j1 < live.len() && 0 <= j2 < live.len() && j1 != j2 ==> disjoint(
            #[trigger] live[j1].0,
            live[j1].1,
            #[trigger] live[j2].0,
            live[j2].1,
        )
}

/// No filed block overlaps a live block.
pub open spec fn free_live_disjoint(lists: Seq<Seq<usize>>, live: Seq<(int, nat)>) -> bool {
    forall|k: int, i: int, j: int|
        0 <= k < lists.len() && 0 <= i < lists[k].len() && 0 <= j < live.len() ==> disjoint(
            #[trigger] lists[k][i] as int,
            k as nat,
            #[trigger] live[j].0,
            live[j].1,
        )
}

/// The block at `a` of order `k` overlaps no filed and no live block.
pub open spec fn apart(lists: Seq<Seq<usize>>, live: Seq<(int, nat)>, a: int, k: nat) -> bool {
    &&& forall|k2: int, i2: int|
        0 <= k2 < lists.len() && 0 <= i2 < lists[k2].len() ==> disjoint(
            a,
            k,
            #[trigger] lists[k2][i2] as int,
            k2 as nat,
        )
    &&& forall|j: int| 0 <= j < live.len() ==> disjoint(a, k, #[trigger] live[j].0, live[j].1)
}

/// The bytes held by the filed blocks.
pub open spec fn free_bytes(lists: Seq<Seq<usize>>) -> int
    decreases lists.len(),
{
    if lists.len() == 0 {
        0
    } else {
        free_bytes(lists.drop_last()) + lists.last().len() * pow2((lists.len() - 1) as nat)
    }
}

/// The bytes held by the live blocks.
pub open spec fn live_bytes(live: Seq<(int, nat)>) -> int
    decreases live.len(),
{
    if live.len() == 0 {
        0
    } else {
        live_bytes(live.drop_last()) + pow2(live.last().1)
    }
}

/// The smallest `k` with `2^k >= n`.
pub open spec fn ceil_log2(n: nat) -> nat
    decreases n,
{
    if n <= 1 {
        0
    } else {
        ceil_log2(((n + 1) / 2) as nat) + 1
    }
}

/// The order of the block that serves a request of `size` bytes aligned to `align`:
/// the smallest one at least as large as the size, the alignment and one word.
pub open spec fn order_for(size: nat, align: nat) -> nat {
    let n = if size >= align { size } else { align };
    ceil_log2(if n >= MIN_BLOCK { n } else { MIN_BLOCK as nat })
}

pub open spec fn is_power_of_two(n: nat) -> bool {
    exists|e: nat| pow2(e) == n
}

proof fn lemma_ceil_log2(n: nat)
    requires
        n >= 1,
    ensures
        pow2(ceil_log2(n)) >= n,
        n >= 2 ==> ceil_log2(n) >= 1 && pow2((ceil_log2(n) - 1) as nat) < n,
    decreases n,
{
    if n >= 2 {
        let m = ((n + 1) / 2) as nat;
        lemma_ceil_log2(m);
        lemma_pow2_unfold(ceil_log2(n));
        if m >= 2 {
            assert(pow2((ceil_log2(m) - 1) as nat) < m);
            lemma_pow2_unfold(ceil_log2(m));
        } else {
            lemma2_to64();
        }
    } else {
        lemma2_to64();
    }
}

/// `order_for` is the unique order that is large enough and whose half is not.
proof fn lemma_order_for_unique(k: nat, n: nat)
    requires
        n >= 1,
        pow2(k) >= n,
        k == 0 || pow2((k - 1) as nat) < n,
    ensures
        k == ceil_log2(n),
{
    lemma_ceil_log2(n);
    let c = ceil_log2(n);
    if k < c {
        if k < (c - 1) as nat {
            lemma_pow2_strictly_increases(k, (c - 1) as nat);
        }
    } else if k > c {
        if c < (k - 1) as nat {
            lemma_pow2_strictly_increases(c, (k - 1) as nat);
        }
    }
}

proof fn lemma_pow2_min()
    ensures
        pow2(MIN_ORDER as nat) == MIN_BLOCK,
{
    lemma2_to64();
}

/// Past a word-aligned address, a block of any order ends word-aligned.
proof fn lemma_end_word_aligned(a: int, k: nat)
    requires
        a % (MIN_BLOCK as int) == 0,
        k >= MIN_ORDER,
    ensures
        (a + pow2(k)) % (MIN_BLOCK as int) == 0,
{
    let d = (k - MIN_ORDER) as nat;
    lemma_pow2_adds(d, MIN_ORDER as nat);
    assert(d + MIN_ORDER == k);
    lemma_pow2_min();
    lemma_fundamental_div_mod(a, 8);
    let q = a / 8;
    assert(a + pow2(k) == 8 * (q + pow2(d))) by (nonlinear_arith)
        requires
            a == 8 * q,
            pow2(k) == pow2(d) * 8,
    ;
    lemma_mod_multiples_basic(q + pow2(d), 8);
}

/// Halving an aligned block gives two aligned halves.
proof fn lemma_split(a: int, k: nat)
    requires
        k >= 1,
        a >= 0,
        a % (pow2(k) as int) == 0,
    ensures
        pow2(k) == 2 * pow2((k - 1) as nat),
        a % (pow2((k - 1) as nat) as int) == 0,
        (a + pow2((k - 1) as nat)) % (pow2((k - 1) as nat) as int) == 0,
{
    let h = pow2((k - 1) as nat) as int;
    lemma_pow2_unfold(k);
    lemma_pow2_pos((k - 1) as nat);
    lemma_mod_mod(a, h, 2);
    assert(h * 2 == pow2(k));
    lemma_mod_multiples_vanish(1, a, h);
    assert(h * 1 + a == a + h);
}

/// The buddy of an aligned block and the block they form together.
proof fn lemma_buddy(a: int, k: nat)
    requires
        a >= 0,
        a % (pow2(k) as int) == 0,
    ensures
        pow2(k + 1) == 2 * pow2(k),
        (a / (pow2(k) as int)) % 2 == 0 ==> a % (pow2(k + 1) as int) == 0 && (a + pow2(k)) % (
        pow2(k) as int) == 0,
        (a / (pow2(k) as int)) % 2 != 0 ==> a >= pow2(k) && (a - pow2(k)) % (pow2(k + 1) as int)
            == 0 && (a - pow2(k)) % (pow2(k) as int) == 0,
{
    let s = pow2(k) as int;
    lemma_pow2_unfold(k + 1);
    lemma_pow2_pos(k);
    let q = a / s;
    lemma_fundamental_div_mod(a, s);
    assert(a == s * q);
    lemma_fundamental_div_mod(q, 2);
    let t = q / 2;
    assert(q == 2 * t + q % 2);
    lemma_mod_multiples_vanish(1, a, s);
    assert(s * 1 + a == a + s);
    assert(q >= 0) by (nonlinear_arith)
        requires
            a == s * q,
            a >= 0,
            s > 0,
    ;
    if q % 2 == 0 {
        assert(a == t * (2 * s)) by (nonlinear_arith)
            requires
                a == s * q,
                q == 2 * t,
        ;
        lemma_mod_multiples_basic(t, 2 * s);
    } else {
        assert(a - s == t * (2 * s)) by (nonlinear_arith)
            requires
                a == s * q,
                q == 2 * t + 1,
        ;
        assert(a >= s) by (nonlinear_arith)
            requires
                a == s * q,
                q >= 1,
                s > 0,
        ;
        lemma_mod_multiples_basic(t, 2 * s);
        lemma_mod_multiples_basic(2 * t, s);
        assert(t * (2 * s) == (2 * t) * s) by (nonlinear_arith);
    }
}

/// A block aligned to `2^k` is aligned to any power of two up to `2^k`.
proof fn lemma_aligned_to(a: int, k: nat, align: nat)
    requires
        a >= 0,
        a % (pow2(k) as int) == 0,
        is_power_of_two(align),
        align <= pow2(k),
    ensures
        a % (align as int) == 0,
{
    let e = choose|e: nat| pow2(e) == align;
    if e > k {
        lemma_pow2_strictly_increases(k, e);
    }
    let d = (k - e) as nat;
    lemma_pow2_adds(d, e);
    assert(d + e == k);
    lemma_pow2_pos(e);
    lemma_pow2_pos(d);
    lemma_mod_mod(a, align as int, pow2(d) as int);
    assert((align as int) * (pow2(d) as int) == pow2(k) as int) by (nonlinear_arith)
        requires
            pow2(k) == pow2(d) * pow2(e),
            pow2(e) == align,
    ;
}

proof fn lemma_free_bytes_update(lists: Seq<Seq<usize>>, k: int, s: Seq<usize>)
    requires
        0 <= k < lists.len(),
    ensures
        free_bytes(lists.update(k, s)) == free_bytes(lists) + (s.len() - lists[k].len()) * pow2(
            k as nat,
        ),
        s.len() == lists[k].len() + 1 ==> free_bytes(lists.update(k, s)) == free_bytes(lists)
            + pow2(k as nat),
        s.len() + 1 == lists[k].len() ==> free_bytes(lists.update(k, s)) == free_bytes(lists)
            - pow2(k as nat),
    decreases lists.len(),
{
    lemma_free_bytes_update_diff(lists, k, s);
    let d = s.len() - lists[k].len();
    assert(d == 1 ==> d * pow2(k as nat) == pow2(k as nat)) by (nonlinear_arith);
    assert(d == -1 ==> d * pow2(k as nat) == -pow2(k as nat)) by (nonlinear_arith);
}

proof fn lemma_free_bytes_update_diff(lists: Seq<Seq<usize>>, k: int, s: Seq<usize>)
    requires
        0 <= k < lists.len(),
    ensures
        free_bytes(lists.update(k, s)) == free_bytes(lists) + (s.len() - lists[k].len()) * pow2(
            k as nat,
        ),
    decreases lists.len(),
{
    let u = lists.update(k, s);
    if k == lists.len() - 1 {
        assert(u.drop_last() =~= lists.drop_last());
        assert(s.len() * pow2(k as nat) - lists[k].len() * pow2(k as nat) == (s.len()
            - lists[k].len()) * pow2(k as nat)) by (nonlinear_arith);
    } else {
        lemma_free_bytes_update_diff(lists.drop_last(), k, s);
        assert(u.drop_last() =~= lists.drop_last().update(k, s));
    }
}

pub proof fn lemma_free_bytes_nonneg(lists: Seq<Seq<usize>>)
    ensures
        free_bytes(lists) >= 0,
    decreases lists.len(),
{
    if lists.len() > 0 {
        lemma_free_bytes_nonneg(lists.drop_last());
        assert(lists.last().len() * pow2((lists.len() - 1) as nat) >= 0) by (nonlinear_arith);
    }
}

proof fn lemma_free_bytes_empty(n: nat)
    ensures
        free_bytes(Seq::new(n, |k: int| Seq::<usize>::empty())) == 0,
    decreases n,
{
    if n > 0 {
        lemma_free_bytes_empty((n - 1) as nat);
        assert(Seq::new(n, |k: int| Seq::<usize>::empty()).drop_last() =~= Seq::new(
            (n - 1) as nat,
            |k: int| Seq::<usize>::empty(),
        ));
    }
}

/// Lists that hold no bytes hold no blocks.
pub proof fn lemma_free_bytes_zero(lists: Seq<Seq<usize>>)
    requires
        free_bytes(lists) == 0,
    ensures
        forall|k: int| 0 <= k < lists.len() ==> #[trigger] lists[k].len() == 0,
    decreases lists.len(),
{
    if lists.len() > 0 {
        let n = (lists.len() - 1) as nat;
        lemma_free_bytes_nonneg(lists.drop_last());
        lemma_pow2_pos(n);
        assert(lists.last().len() * pow2(n) >= 0) by (nonlinear_arith);
        assert(lists.last().len() == 0) by (nonlinear_arith)
            requires
                lists.last().len() * pow2(n) == 0,
                pow2(n) > 0,
        ;
        lemma_free_bytes_zero(lists.drop_last());
        assert forall|k: int| 0 <= k < lists.len() implies #[trigger] lists[k].len() == 0 by {
            if k < n {
                assert(lists.drop_last()[k] == lists[k]);
            }
        }
    }
}

pub proof fn lemma_live_bytes_nonneg(live: Seq<(int, nat)>)
    ensures
        live_bytes(live) >= 0,
    decreases live.len(),
{
    if live.len() > 0 {
        lemma_live_bytes_nonneg(live.drop_last());
    }
}

proof fn lemma_live_bytes_push(live: Seq<(int, nat)>, b: (int, nat))
    ensures
        live_bytes(live.push(b)) == live_bytes(live) + pow2(b.1),
{
    assert(live.push(b).drop_last() =~= live);
}

proof fn lemma_live_bytes_remove(live: Seq<(int, nat)>, j: int)
    requires
        0 <= j < live.len(),
    ensures
        live_bytes(live.remove(j)) == live_bytes(live) - pow2(live[j].1),
    decreases live.len(),
{
    if j == live.len() - 1 {
        assert(live.remove(j) =~= live.drop_last());
    } else {
        lemma_live_bytes_remove(live.drop_last(), j);
        assert(live.remove(j).drop_last() =~= live.drop_last().remove(j));
        assert(live.remove(j).last() == live.last());
    }
}

proof fn lemma_push_free(lists: Seq<Seq<usize>>, live: Seq<(int, nat)>, k: int, x: usize)
    requires
        0 <= k < lists.len(),
        free_ok(lists),
        free_disjoint(lists),
        free_live_disjoint(lists, live),
        block_ok(x as int, k as nat),
        apart(lists, live, x as int, k as nat),
    ensures
        free_ok(lists.update(k, lists[k].push(x))),
        free_disjoint(lists.update(k, lists[k].push(x))),
        free_live_disjoint(lists.update(k, lists[k].push(x)), live),
{
    let u = lists.update(k, lists[k].push(x));
    assert forall|k1: int, i1: int|
        0 <= k1 < u.len() && 0 <= i1 < u[k1].len() implies (k1 == k && i1 == lists[k].len() && u[k1][i1]
        == x) || (0 <= i1 < lists[k1].len() && u[k1][i1] == lists[k1][i1]) by {}
}

proof fn lemma_apart_push(
    lists: Seq<Seq<usize>>,
    live: Seq<(int, nat)>,
    a: int,
    ka: nat,
    k: int,
    x: usize,
)
    requires
        0 <= k < lists.len(),
        apart(lists, live, a, ka),
        disjoint(a, ka, x as int, k as nat),
    ensures
        apart(lists.update(k, lists[k].push(x)), live, a, ka),
{
    let u = lists.update(k, lists[k].push(x));
    assert forall|k1: int, i1: int|
        0 <= k1 < u.len() && 0 <= i1 < u[k1].len() implies (k1 == k && i1 == lists[k].len() && u[k1][i1]
        == x) || (0 <= i1 < lists[k1].len() && u[k1][i1] == lists[k1][i1]) by {}
}

proof fn lemma_remove_free(lists: Seq<Seq<usize>>, live: Seq<(int, nat)>, k: int, i: int)
    requires
        0 <= k < lists.len(),
        0 <= i < lists[k].len(),
        free_ok(lists),
        free_disjoint(lists),
        free_live_disjoint(lists, live),
    ensures
        free_ok(lists.update(k, lists[k].remove(i))),
        free_disjoint(lists.update(k, lists[k].remove(i))),
        free_live_disjoint(lists.update(k, lists[k].remove(i)), live),
        apart(lists.update(k, lists[k].remove(i)), live, lists[k][i] as int, k as nat),
        block_ok(lists[k][i] as int, k as nat),
{
    let u = lists.update(k, lists[k].remove(i));
    assert forall|k1: int, i1: int| 0 <= k1 < u.len() && 0 <= i1 < u[k1].len() implies {
        &&& k1 == k ==> (i1 < i ==> u[k1][i1] == lists[k1][i1]) && (i1 >= i ==> u[k1][i1]
            == lists[k1][i1 + 1])
        &&& k1 != k ==> u[k1][i1] == lists[k1][i1]
    } by {}
    assert forall|k1: int, i1: int, k2: int, i2: int|
        0 <= k1 < u.len() && 0 <= i1 < u[k1].len() && 0 <= k2 < u.len() && 0 <= i2 < u[k2].len()
            && (k1 != k2 || i1 != i2) implies disjoint(
        #[trigger] u[k1][i1] as int,
        k1 as nat,
        #[trigger] u[k2][i2] as int,
        k2 as nat,
    ) by {
        let j1 = if k1 == k && i1 >= i { i1 + 1 } else { i1 };
        let j2 = if k2 == k && i2 >= i { i2 + 1 } else { i2 };
        assert(u[k1][i1] == lists[k1][j1]);
        assert(u[k2][i2] == lists[k2][j2]);
    }
    assert forall|k2: int, i2: int| 0 <= k2 < u.len() && 0 <= i2 < u[k2].len() implies disjoint(
        lists[k][i] as int,
        k as nat,
        #[trigger] u[k2][i2] as int,
        k2 as nat,
    ) by {
        let j2 = if k2 == k && i2 >= i { i2 + 1 } else { i2 };
        assert(u[k2][i2] == lists[k2][j2]);
    }
    assert forall|j: int| 0 <= j < live.len() implies disjoint(
        lists[k][i] as int,
        k as nat,
        #[trigger] live[j].0,
        live[j].1,
    ) by {
        assert(disjoint(lists[k][i] as int, k as nat, live[j].0, live[j].1));
    }
}

proof fn lemma_apart_remove(
    lists: Seq<Seq<usize>>,
    live: Seq<(int, nat)>,
    a: int,
    ka: nat,
    k: int,
    i: int,
)
    requires
        0 <= k < lists.len(),
        0 <= i < lists[k].len(),
        apart(lists, live, a, ka),
    ensures
        apart(lists.update(k, lists[k].remove(i)), live, a, ka),
{
    let u = lists.update(k, lists[k].remove(i));
    assert forall|k2: int, i2: int| 0 <= k2 < u.len() && 0 <= i2 < u[k2].len() implies disjoint(
        a,
        ka,
        #[trigger] u[k2][i2] as int,
        k2 as nat,
    ) by {
        let j2 = if k2 == k && i2 >= i { i2 + 1 } else { i2 };
        assert(u[k2][i2] == lists[k2][j2]);
    }
}

proof fn lemma_live_push(lists: Seq<Seq<usize>>, live: Seq<(int, nat)>, b: (int, nat), n: nat)
    requires
        live_ok(live, n),
        live_disjoint(live),
        free_live_disjoint(lists, live),
        block_ok(b.0, b.1),
        b.1 < n,
        apart(lists, live, b.0, b.1),
    ensures
        live_ok(live.push(b), n),
        live_disjoint(live.push(b)),
        free_live_disjoint(lists, live.push(b)),
{
    let p = live.push(b);
    assert forall|j: int| 0 <= j < p.len() implies (j == live.len() && p[j] == b) || (j < live.len()
        && p[j] == live[j]) by {}
}

proof fn lemma_live_remove(lists: Seq<Seq<usize>>, live: Seq<(int, nat)>, j: int, n: nat)
    requires
        0 <= j < live.len(),
        live_ok(live, n),
        live_disjoint(live),
        free_live_disjoint(lists, live),
    ensures
        live_ok(live.remove(j), n),
        live_disjoint(live.remove(j)),
        free_live_disjoint(lists, live.remove(j)),
        apart(lists, live.remove(j), live[j].0, live[j].1),
{
    let r = live.remove(j);
    assert forall|j1: int, j2: int|
        0 <= j1 < r.len() && 0 <= j2 < r.len() && j1 != j2 implies disjoint(
        #[trigger] r[j1].0,
        r[j1].1,
        #[trigger] r[j2].0,
        r[j2].1,
    ) by {
        let m1 = if j1 >= j { j1 + 1 } else { j1 };
        let m2 = if j2 >= j { j2 + 1 } else { j2 };
        assert(r[j1] == live[m1]);
        assert(r[j2] == live[m2]);
    }
    assert forall|j1: int| 0 <= j1 < r.len() implies disjoint(
        live[j].0,
        live[j].1,
        #[trigger] r[j1].0,
        r[j1].1,
    ) && block_ok(r[j1].0, r[j1].1) && r[j1].1 < n by {
        let m1 = if j1 >= j { j1 + 1 } else { j1 };
        assert(r[j1] == live[m1]);
    }
    assert forall|k: int, i: int, j1: int|
        0 <= k < lists.len() && 0 <= i < lists[k].len() && 0 <= j1 < r.len() implies disjoint(
        #[trigger] lists[k][i] as int,
        k as nat,
        #[trigger] r[j1].0,
        r[j1].1,
    ) by {
        let m1 = if j1 >= j { j1 + 1 } else { j1 };
        assert(r[j1] == live[m1]);
    }
    assert forall|k: int, i: int| 0 <= k < lists.len() && 0 <= i < lists[k].len() implies disjoint(
        live[j].0,
        live[j].1,
        #[trigger] lists[k][i] as int,
        k as nat,
    ) by {
        assert(disjoint(lists[k][i] as int, k as nat, live[j].0, live[j].1));
    }
}

/// Both halves of a block that overlaps nothing overlap nothing.
proof fn lemma_apart_halves(lists: Seq<Seq<usize>>, live: Seq<(int, nat)>, a: int, k: nat)
    requires
        k >= 1,
        pow2(k) == 2 * pow2((k - 1) as nat),
        apart(lists, live, a, k),
    ensures
        apart(lists, live, a, (k - 1) as nat),
        apart(lists, live, a + pow2((k - 1) as nat), (k - 1) as nat),
        disjoint(a, (k - 1) as nat, a + pow2((k - 1) as nat), (k - 1) as nat),
{
}

/// Two neighbouring halves that overlap nothing form a block that overlaps nothing.
proof fn lemma_apart_join(lists: Seq<Seq<usize>>, live: Seq<(int, nat)>, m: int, k: nat)
    requires
        pow2(k + 1) == 2 * pow2(k),
        apart(lists, live, m, k),
        apart(lists, live, m + pow2(k), k),
    ensures
        apart(lists, live, m, k + 1),
{
    assert forall|k2: int, i2: int|
        0 <= k2 < lists.len() && 0 <= i2 < lists[k2].len() implies disjoint(
        m,
        k + 1,
        #[trigger] lists[k2][i2] as int,
        k2 as nat,
    ) by {
        lemma_pow2_pos(k2 as nat);
    }
    assert forall|j: int| 0 <= j < live.len() implies disjoint(
        m,
        k + 1,
        #[trigger] live[j].0,
        live[j].1,
    ) by {
        lemma_pow2_pos(live[j].1);
    }
}

/// The one failure of allocation: no free block is large enough.
#[derive(Debug, Clone, Copy, PartialEq, Eq)]
pub struct OutOfMemory;

/// `2^k` as a machine integer.
fn pow2_of(k: usize) -> (r: usize)
    requires
        pow2(k as nat) <= usize::MAX,
    ensures
        r == pow2(k as nat),
{
    let mut s: usize = 1;
    let mut i: usize = 0;
    proof {
        lemma2_to64();
    }
    while i < k
        invariant
            i <= k,
            s == pow2(i as nat),
            pow2(k as nat) <= usize::MAX,
        decreases k - i,
    {
        proof {
            lemma_pow2_unfold((i + 1) as nat);
            if i + 1 < k {
                lemma_pow2_strictly_increases((i + 1) as nat, k as nat);
            }
        }
        s = s * 2;
        i = i + 1;
    }
    s
}

/// The order that serves `size` bytes aligned to `align`, or `None` when that
/// order is `limit` or more, or its blocks would not fit in the address space.
fn order_of(size: usize, align: usize, limit: usize) -> (r: Option<usize>)
    ensures
        r matches Some(k) ==> k == order_for(size as nat, align as nat) && MIN_ORDER <= k < limit && pow2(
            k as nat,
        ) <= usize::MAX,
        r is None ==> order_for(size as nat, align as nat) >= limit || pow2(
            order_for(size as nat, align as nat),
        ) > usize::MAX,
{
    let n: usize = if size >= align { size } else { align };
    let n: usize = if n >= MIN_BLOCK { n } else { MIN_BLOCK };
    let mut k: usize = MIN_ORDER;
    let mut s: usize = MIN_BLOCK;
    proof {
        lemma_pow2_min();
    }
    while s < n
        invariant
            MIN_ORDER <= k,
            k < s,
            s == pow2(k as nat),
            n >= MIN_BLOCK,
            k == MIN_ORDER || pow2((k - 1) as nat) < n,
            n == (if (if size >= align { size } else { align }) >= MIN_BLOCK {
                if size >= align { size } else { align }
            } else {
                MIN_BLOCK
            }),
        decreases usize::MAX - s,
    {
        proof {
            lemma_pow2_unfold((k + 1) as nat);
        }
        if s > usize::MAX / 2 {
            proof {
                lemma_order_for_unique((k + 1) as nat, n as nat);
            }
            return None;
        }
        s = s * 2;
        k = k + 1;
    }
    proof {
        if k > MIN_ORDER {
            lemma_order_for_unique(k as nat, n as nat);
        } else {
            lemma2_to64();
            lemma_order_for_unique(k as nat, n as nat);
        }
    }
    if k >= limit {
        return None;
    }
    Some(k)
}

/// `a` rounded up to a multiple of the smallest block size.
pub open spec fn round_up(a: int) -> int {
    if a % (MIN_BLOCK as int) == 0 {
        a
    } else {
        a + (MIN_BLOCK - a % (MIN_BLOCK as int))
    }
}

/// `a` rounded down to a multiple of the smallest block size.
pub open spec fn round_down(a: int) -> int {
    a - a % (MIN_BLOCK as int)
}

/// The bytes of `[start, end)` that registration files with `ORDER` = `order`:
/// all of the word-aligned part, or nothing when no order can hold a word.
pub open spec fn usable_bytes(start: int, end: int, order: nat) -> int {
    if order > MIN_ORDER && round_up(start) < round_down(end) {
        round_down(end) - round_up(start)
    } else {
        0
    }
}

/// The block of order `k` at `a` is the largest that registration can file
/// there: the next order is capped, misaligned, or runs past `end`.
pub open spec fn largest_fit(a: int, k: nat, end: int, order: nat) -> bool {
    k + 1 >= order || a % (pow2(k + 1) as int) != 0 || a + pow2(k + 1) > end
}

/// The free lists grew only at their ends, by blocks inside `[lo, hi)`.
pub open spec fn extended_within(old: Seq<Seq<usize>>, new: Seq<Seq<usize>>, lo: int, hi: int) -> bool {
    &&& new.len() == old.len()
    &&& forall|k: int|
        0 <= k < old.len() ==> #[trigger] new[k].len() >= old[k].len() && new[k].subrange(
            0,
            old[k].len() as int,
        ) == old[k]
    &&& forall|k: int, i: int|
        0 <= k < new.len() && old[k].len() <= i < new[k].len() ==> lo <= #[trigger] new[k][i]
            && new[k][i] + pow2(k as nat) <= hi
}

/// The buddy of the block of order `k` at `a`: the other half of the block of
/// order `k + 1` that holds it.
pub open spec fn buddy_of(a: int, k: nat) -> int {
    if (a / (pow2(k) as int)) % 2 == 0 {
        a + pow2(k)
    } else {
        a - pow2(k)
    }
}

/// The free lists after the block of order `k` at `a` is given back to `lists`:
/// while a larger order exists and the buddy is filed, the buddy leaves its
/// list and the two merge; then the resulting block is filed.
pub open spec fn coalesce(lists: Seq<Seq<usize>>, a: int, k: nat, order: nat) -> Seq<Seq<usize>>
    decreases order - k,
{
    let b = buddy_of(a, k);
    if k + 1 < order && 2 * pow2(k) <= usize::MAX && 0 <= b <= usize::MAX && lists[k as int].contains(
        b as usize,
    ) {
        coalesce(
            lists.update(k as int, lists[k as int].remove(lists[k as int].index_of(b as usize))),
            if b < a {
                b
            } else {
                a
            },
            k + 1,
            order,
        )
    } else {
        lists.update(k as int, lists[k as int].push(a as usize))
    }
}

/// The free lists after a block of order `j` at `a` was taken from the head of list
/// `j` and split down to order `k`: each upper half went to the list of its order.
pub open spec fn split_lists(lists: Seq<Seq<usize>>, j: int, k: int, a: int) -> Seq<Seq<usize>> {
    Seq::new(
        lists.len(),
        |i: int|
            if i == j {
                lists[j].drop_last()
            } else if k <= i < j {
                lists[i].push((a + pow2(i as nat)) as usize)
            } else {
                lists[i]
            },
    )
}

/// The buddy-system heap: one free list per order below `ORDER`.
pub struct Heap<const ORDER: usize> {
    free_list: Vec<List>,
    allocated: usize,
    total: usize,
    live: Ghost<Seq<(int, nat)>>,
}

impl<const ORDER: usize> Heap<ORDER> {
    /// The addresses filed in each order's free list.
    pub closed spec fn lists(&self) -> Seq<Seq<usize>> {
        Seq::new(self.free_list@.len(), |k: int| self.free_list@[k]@)
    }

    /// The blocks handed out and not yet returned, as (address, order).
    pub closed spec fn live(&self) -> Seq<(int, nat)> {
        self.live@
    }

    pub closed spec fn spec_total(&self) -> usize {
        self.total
    }

    pub closed spec fn spec_allocated(&self) -> usize {
        self.allocated
    }

    /// The heap's invariant: filed and live blocks are well formed and pairwise
    /// disjoint, and the counters agree with them.
    pub open spec fn wf(&self) -> bool {
        &&& self.lists().len() == ORDER
        &&& free_ok(self.lists())
        &&& free_disjoint(self.lists())
        &&& live_ok(self.live(), ORDER as nat)
        &&& live_disjoint(self.live())
        &&& free_live_disjoint(self.lists(), self.live())
        &&& self.spec_allocated() == live_bytes(self.live())
        &&& self.spec_total() == self.spec_allocated() + free_bytes(self.lists())
    }

    /// Some free list of order `k` or above holds a block.
    pub open spec fn can_serve(&self, k: nat) -> bool {
        exists|j: int| k <= j < ORDER && #[trigger] self.lists()[j].len() > 0
    }

    /// The block a request of order `k` is carved from: the head of the first
    /// non-empty list of order `j >= k`.
    pub open spec fn source(&self, k: nat, j: int) -> bool {
        &&& k <= j < ORDER
        &&& self.lists()[j].len() > 0
        &&& forall|i: int| k <= i < j ==> #[trigger] self.lists()[i].len() == 0
    }

    /// What `allocate(size, align)` does: `post` and `r` come from `self`.
    /// It succeeds exactly when some list at or above the required order holds
    /// a block; then the first such block is split down to that order, its
    /// upper halves are filed, and its address is handed out.
    pub open spec fn allocate_post(
        &self,
        post: Self,
        size: usize,
        align: usize,
        r: Result<usize, OutOfMemory>,
    ) -> bool {
        &&& post.spec_total() == self.spec_total()
        &&& r is Ok == self.can_serve(order_for(size as nat, align as nat))
        &&& (r is Err ==> post.lists() == self.lists() && post.live() == self.live()
            && post.spec_allocated() == self.spec_allocated())
        &&& (r matches Ok(a) ==> ({
                let k = order_for(size as nat, align as nat);
                &&& is_power_of_two(align as nat) ==> a as int % align as int == 0
                &&& pow2(k) >= size
                &&& block_ok(a as int, k)
                &&& post.live() == self.live().push((a as int, k))
                &&& post.spec_allocated() == self.spec_allocated() + pow2(k)
                &&& exists|j: int|
                    self.source(k, j) && a == self.lists()[j].last() && post.lists()
                        == split_lists(self.lists(), j, k as int, a as int)
            }))
    }

    /// What `dealloc(addr, size, align)` does: `post` comes from `self`. The
    /// block leaves the live blocks, `allocated` drops by its size, and the
    /// free lists become those of `coalesce`: the block lies inside a filed
    /// block afterwards, and no list of a smaller order changes.
    pub open spec fn dealloc_post(&self, post: Self, addr: usize, size: usize, align: usize) -> bool {
        &&& post.spec_total() == self.spec_total()
        &&& post.spec_allocated() == self.spec_allocated() - pow2(
                order_for(size as nat, align as nat),
            )
        &&& (exists|j: int|
                0 <= j < self.live().len() && self.live()[j] == (
                addr as int,
                order_for(size as nat, align as nat),
                ) && post.live() == self.live().remove(j))
        &&& post.covered(addr as int, order_for(size as nat, align as nat))
        &&& forall|i: int|
            0 <= i < order_for(size as nat, align as nat) && i < self.lists().len() ==> #[trigger] post.lists()[i]
                == self.lists()[i]
        &&& post.lists().len() == self.lists().len()
        &&& post.lists() == coalesce(
            self.lists(),
            addr as int,
            order_for(size as nat, align as nat),
            ORDER as nat,
        )
    }

    /// An empty heap: no list holds a block and nothing is registered.
    pub fn new() -> (r: Self)
        ensures
            r.wf(),
            r.spec_total() == 0,
            r.spec_allocated() == 0,
            r.live() == Seq::<(int, nat)>::empty(),
            r.lists() == Seq::new(ORDER as nat, |k: int| Seq::<usize>::empty()),
    {
        let mut free_list: Vec<List> = Vec::new();
        let mut i: usize = 0;
        while i < ORDER
            invariant
                i <= ORDER,
                free_list@.len() == i,
                forall|k: int| 0 <= k < i ==> (#[trigger] free_list@[k])@ == Seq::<usize>::empty(),
            decreases ORDER - i,
        {
            free_list.push(List::new());
            i = i + 1;
        }
        let r = Heap { free_list, allocated: 0, total: 0, live: Ghost(Seq::empty()) };
        proof {
            assert(r.lists() =~= Seq::new(ORDER as nat, |k: int| Seq::<usize>::empty()));
            lemma_free_bytes_empty(ORDER as nat);
        }
        r
    }

    /// The bytes registered so far, padding excluded.
    #[verifier::when_used_as_spec(spec_total)]
    pub fn total(&self) -> (r: usize)
        ensures
            r == self.spec_total(),
    {
        self.total
    }

    /// The bytes currently handed out, counted by block size.
    #[verifier::when_used_as_spec(spec_allocated)]
    pub fn allocated(&self) -> (r: usize)
        ensures
            r == self.spec_allocated(),
    {
        self.allocated
    }

    /// Hands out a block of at least `size` bytes aligned to `align`: the
    /// smallest sufficient order is taken from the first non-empty list at or
    /// above it, splitting off upper halves into the lists below.
    pub fn allocate(&mut self, size: usize, align: usize) -> (r: Result<usize, OutOfMemory>)
        requires
            old(self).wf(),
        ensures
            final(self).wf(),
            old(self).allocate_post(*final(self), size, align, r),
    {
        let ghost kk = order_for(size as nat, align as nat);
        let k = match order_of(size, align, ORDER) {
            Some(k) => k,
            None => {
                proof {
                    if old(self).can_serve(kk) {
                        let j = choose|j: int| kk <= j < ORDER && #[trigger] old(self).lists()[j].len() > 0;
                        assert(block_ok(old(self).lists()[j][0] as int, j as nat));
                        if kk < j {
                            lemma_pow2_strictly_increases(kk, j as nat);
                        }
                    }
                }
                return Err(OutOfMemory);
            },
        };
        let mut j: usize = k;
        while j < ORDER && self.free_list[j].is_empty()
            invariant
                self.wf(),
                *self == *old(self),
                self.free_list@.len() == ORDER,
                k <= j <= ORDER,
                forall|i: int| k <= i < j ==> #[trigger] self.lists()[i].len() == 0,
            decreases ORDER - j,
        {
            proof {
                assert(self.lists()[j as int] == self.free_list@[j as int]@);
            }
            j = j + 1;
        }
        if j == ORDER {
            return Err(OutOfMemory);
        }
        proof {
            assert(self.lists()[j as int] == self.free_list@[j as int]@);
        }
        let ghost lists0 = self.lists();
        let ghost j0 = j as int;
        let ghost live0 = self.live();
        let a = match self.free_list[j].pop() {
            Some(a) => a,
            None => {
                return Err(OutOfMemory);
            },
        };
        proof {
            assert(self.lists() =~= lists0.update(j0, lists0[j0].remove(lists0[j0].len() - 1)));
            assert(lists0[j0].remove(lists0[j0].len() - 1) =~= lists0[j0].drop_last());
            lemma_remove_free(lists0, live0, j0, lists0[j0].len() - 1);
            lemma_free_bytes_update(lists0, j0, lists0[j0].drop_last());
            assert(self.lists() =~= split_lists(lists0, j0, j0, a as int));
        }
        let mut s = pow2_of(j);
        while j > k
            invariant
                MIN_ORDER <= k <= j <= j0,
                j0 < ORDER,
                self.free_list@.len() == ORDER,
                self.lists() == split_lists(lists0, j0, j as int, a as int),
                self.live() == live0,
                self.allocated == old(self).allocated,
                self.total == old(self).total,
                s == pow2(j as nat),
                block_ok(a as int, j as nat),
                free_ok(self.lists()),
                free_disjoint(self.lists()),
                free_live_disjoint(self.lists(), self.live()),
                apart(self.lists(), self.live(), a as int, j as nat),
                self.total == self.allocated + free_bytes(self.lists()) + pow2(j as nat),
                forall|i: int| k <= i < j0 ==> #[trigger] lists0[i].len() == 0,
            decreases j,
        {
            let ghost before = self.lists();
            proof {
                lemma_split(a as int, j as nat);
                lemma_apart_halves(before, live0, a as int, j as nat);
                lemma_pow2_strictly_increases((j - 1) as nat, j as nat);
            }
            j = j - 1;
            s = s / 2;
            let upper = a + s;
            self.free_list[j].push(upper);
            proof {
                assert(self.lists() =~= before.update(j as int, before[j as int].push(upper)));
                lemma_push_free(before, live0, j as int, upper);
                lemma_apart_push(before, live0, a as int, j as nat, j as int, upper);
                lemma_free_bytes_update(before, j as int, before[j as int].push(upper));
                assert(self.lists() =~= split_lists(lists0, j0, j as int, a as int));
            }
        }
        proof {
            lemma_live_push(self.lists(), live0, (a as int, k as nat), ORDER as nat);
            lemma_live_bytes_push(live0, (a as int, k as nat));
            lemma_free_bytes_nonneg(self.lists());
            lemma_ceil_log2(
                if (if size >= align { size } else { align }) >= MIN_BLOCK {
                    (if size >= align { size } else { align }) as nat
                } else {
                    MIN_BLOCK as nat
                },
            );
            if is_power_of_two(align as nat) {
                lemma_aligned_to(a as int, k as nat, align as nat);
            }
            assert(old(self).source(k as nat, j0));
        }
        self.allocated = self.allocated + s;
        self.live = Ghost(self.live@.push((a as int, k as nat)));
        Ok(a)
    }

    /// Some filed block contains the block of order `k` at `a`.
    pub open spec fn covered(&self, a: int, k: nat) -> bool {
        exists|k2: int, i: int|
            0 <= k2 < self.lists().len() && 0 <= i < self.lists()[k2].len() && within(
                a,
                k,
                #[trigger] self.lists()[k2][i] as int,
                k2 as nat,
            )
    }

    /// Takes back the block at `addr` that `allocate` handed out for the same
    /// `size` and `align`, and merges it with its buddy for as long as the buddy
    /// is free, filing the result.
    pub fn dealloc(&mut self, addr: usize, size: usize, align: usize)
        requires
            old(self).wf(),
            old(self).live().contains((addr as int, order_for(size as nat, align as nat))),
        ensures
            final(self).wf(),
            old(self).dealloc_post(*final(self), addr, size, align),
    {
        let ghost kk = order_for(size as nat, align as nat);
        let ghost jl = choose|j: int|
            0 <= j < old(self).live().len() && old(self).live()[j] == (addr as int, kk);
        proof {
            assert(old(self).live()[jl] == (addr as int, kk));
            assert(block_ok(old(self).live()[jl].0, old(self).live()[jl].1));
            assert(block_ok(addr as int, kk) && kk < ORDER);
        }
        let k = match order_of(size, align, ORDER) {
            Some(k) => k,
            None => {
                return;
            },
        };
        let ghost lists0 = self.lists();
        let ghost live0 = self.live();
        proof {
            lemma_live_remove(lists0, live0, jl, ORDER as nat);
            lemma_live_bytes_remove(live0, jl);
            lemma_live_bytes_nonneg(live0.remove(jl));
            lemma_free_bytes_nonneg(lists0);
        }
        let mut s = pow2_of(k);
        self.allocated = self.allocated - s;
        self.live = Ghost(self.live@.remove(jl));
        let ghost live1 = self.live();
        let mut cur = addr;
        let mut j = k;
        proof {
            lemma_pow2_pos(k as nat);
        }
        loop
            invariant
                MIN_ORDER <= k <= j < ORDER,
                self.free_list@.len() == ORDER,
                forall|i: int| 0 <= i < k ==> #[trigger] self.lists()[i] == lists0[i],
                lists0.len() == ORDER,
                coalesce(self.lists(), cur as int, j as nat, ORDER as nat) == coalesce(
                    lists0,
                    addr as int,
                    k as nat,
                    ORDER as nat,
                ),
                self.live() == live1,
                self.allocated == live_bytes(live1),
                self.total == old(self).total,
                live_ok(live1, ORDER as nat),
                live_disjoint(live1),
                s == pow2(j as nat),
                block_ok(cur as int, j as nat),
                within(addr as int, k as nat, cur as int, j as nat),
                free_ok(self.lists()),
                free_disjoint(self.lists()),
                free_live_disjoint(self.lists(), live1),
                apart(self.lists(), live1, cur as int, j as nat),
                self.total == self.allocated + free_bytes(self.lists()) + pow2(j as nat),
            ensures
                !(j + 1 < ORDER && 2 * pow2(j as nat) <= usize::MAX && 0 <= buddy_of(
                    cur as int,
                    j as nat,
                ) <= usize::MAX && self.lists()[j as int].contains(
                    buddy_of(cur as int, j as nat) as usize,
                )),
            decreases ORDER - j,
        {
            if j + 1 >= ORDER || s > usize::MAX / 2 {
                break;
            }
            proof {
                lemma_buddy(cur as int, j as nat);
                lemma_pow2_pos(j as nat);
            }
            let low = (cur / s) % 2 == 0;
            if low && cur > usize::MAX - s {
                break;
            }
            let buddy = if low { cur + s } else { cur - s };
            let ghost before = self.lists();
            proof {
                assert(self.lists()[j as int] == self.free_list@[j as int]@);
            }
            proof {
                assert(buddy_of(cur as int, j as nat) == buddy as int);
            }
            let found = self.free_list[j].remove(buddy);
            if !found {
                proof {
                    assert(self.lists() =~= before);
                }
                break;
            }
            proof {
                let i = choose|i: int|
                    0 <= i < before[j as int].len() && before[j as int][i] == buddy && self.free_list@[j as int]@
                        == before[j as int].remove(i);
                let ix = before[j as int].index_of(buddy);
                assert(before[j as int].contains(buddy));
                assert(0 <= ix < before[j as int].len() && before[j as int][ix] == buddy);
                if ix != i {
                    assert(disjoint(before[j as int][i] as int, j as nat, before[j as int][ix] as int, j as nat));
                    lemma_pow2_pos(j as nat);
                }
            }
            proof {
                let i = choose|i: int|
                    0 <= i < before[j as int].len() && before[j as int][i] == buddy && self.free_list@[j as int]@
                        == before[j as int].remove(i);
                assert(self.lists() =~= before.update(j as int, before[j as int].remove(i)));
                lemma_remove_free(before, live1, j as int, i);
                lemma_apart_remove(before, live1, cur as int, j as nat, j as int, i);
                lemma_free_bytes_update(before, j as int, before[j as int].remove(i));
                let m = if low { cur as int } else { buddy as int };
                lemma_apart_join(self.lists(), live1, m, j as nat);
            }
            if !low {
                cur = buddy;
            }
            j = j + 1;
            s = s * 2;
        }
        let ghost before = self.lists();
        proof {
            assert(coalesce(before, cur as int, j as nat, ORDER as nat) == before.update(
                j as int,
                before[j as int].push(cur),
            ));
            lemma_push_free(before, live1, j as int, cur);
            lemma_free_bytes_update(before, j as int, before[j as int].push(cur));
        }
        self.free_list[j].push(cur);
        proof {
            assert(self.lists() =~= before.update(j as int, before[j as int].push(cur)));
            let n = before[j as int].len() as int;
            assert(self.lists()[j as int][n] == cur);
        }
    }

    /// No filed or live block meets `[start, end)`.
    pub open spec fn region_unused(&self, start: int, end: int) -> bool {
        &&& forall|k: int, i: int|
            0 <= k < self.lists().len() && 0 <= i < self.lists()[k].len() ==> #[trigger] self.lists()[k][i]
                + pow2(k as nat) <= start || end <= self.lists()[k][i]
        &&& forall|j: int|
            0 <= j < self.live().len() ==> #[trigger] self.live()[j].0 + pow2(self.live()[j].1)
                <= start || end <= self.live()[j].0
    }

    /// Registers the memory `[start, end)`: from its first word-aligned address
    /// on, files the largest aligned block that fits in what is left (capped at
    /// order `ORDER - 1`) and moves past it, until less than a word is left.
    pub fn add_range(&mut self, start: usize, end: usize)
        requires
            old(self).wf(),
            old(self).region_unused(start as int, end as int),
            start <= end ==> old(self).spec_total() + (end - start) <= usize::MAX,
        ensures
            final(self).wf(),
            final(self).live() == old(self).live(),
            final(self).spec_allocated() == old(self).spec_allocated(),
            final(self).spec_total() == old(self).spec_total() + usable_bytes(
                start as int,
                end as int,
                ORDER as nat,
            ),
            extended_within(old(self).lists(), final(self).lists(), start as int, end as int),
            forall|k: int, i: int|
                0 <= k < ORDER && old(self).lists()[k].len() <= i < final(self).lists()[k].len()
                    ==> largest_fit(
                    #[trigger] final(self).lists()[k][i] as int,
                    k as nat,
                    round_down(end as int),
                    ORDER as nat,
                ),
    {
        let ghost lists0 = self.lists();
        proof {
            assert(extended_within(lists0, lists0, start as int, end as int)) by {
                assert forall|k: int| 0 <= k < lists0.len() implies #[trigger] lists0[k].subrange(
                    0,
                    lists0[k].len() as int,
                ) == lists0[k] by {
                    assert(lists0[k].subrange(0, lists0[k].len() as int) =~= lists0[k]);
                }
            }
        }
        if ORDER <= MIN_ORDER {
            return;
        }
        let rem = start % MIN_BLOCK;
        if rem != 0 && start > usize::MAX - MIN_BLOCK {
            return;
        }
        let s8: usize = if rem == 0 { start } else { start + (MIN_BLOCK - rem) };
        let e: usize = end - end % MIN_BLOCK;
        if s8 >= e {
            return;
        }
        let mut cur: usize = s8;
        let ghost live0 = self.live();
        proof {
            lemma_pow2_min();
        }
        while cur < e
            invariant
                MIN_ORDER < ORDER,
                s8 <= cur <= e,
                cur % MIN_BLOCK == 0,
                e % MIN_BLOCK == 0,
                start <= s8,
                e <= end,
                s8 == round_up(start as int),
                e == round_down(end as int),
                self.free_list@.len() == ORDER,
                self.live() == live0,
                self.allocated == old(self).allocated,
                old(self).spec_total() + (end - start) <= usize::MAX,
                self.total == old(self).total + (cur - s8),
                live_ok(live0, ORDER as nat),
                live_disjoint(live0),
                self.allocated == live_bytes(live0),
                free_ok(self.lists()),
                free_disjoint(self.lists()),
                free_live_disjoint(self.lists(), live0),
                self.total == self.allocated + free_bytes(self.lists()),
                extended_within(lists0, self.lists(), s8 as int, cur as int),
                forall|k: int, i: int|
                    0 <= k < ORDER && lists0[k].len() <= i < self.lists()[k].len() ==> largest_fit(
                        #[trigger] self.lists()[k][i] as int,
                        k as nat,
                        e as int,
                        ORDER as nat,
                    ),
                old(self).region_unused(start as int, end as int),
                lists0 == old(self).lists(),
                live0 == old(self).live(),
            decreases e - cur,
        {
            let mut k: usize = MIN_ORDER;
            let mut size: usize = MIN_BLOCK;
            proof {
                lemma_pow2_min();
            }
            while k + 1 < ORDER && size <= usize::MAX / 2 && cur % (size * 2) == 0 && size * 2
                <= e - cur
                invariant
                    MIN_ORDER <= k < ORDER,
                    size > 0,
                    size == pow2(k as nat),
                    cur % size == 0,
                    size <= e - cur,
                decreases ORDER - k,
            {
                proof {
                    lemma_pow2_unfold((k + 1) as nat);
                }
                size = size * 2;
                k = k + 1;
            }
            let ghost before = self.lists();
            proof {
                lemma_pow2_unfold((k + 1) as nat);
                assert(largest_fit(cur as int, k as nat, e as int, ORDER as nat));
                assert(block_ok(cur as int, k as nat));
                assert forall|k2: int, i2: int|
                    0 <= k2 < before.len() && 0 <= i2 < before[k2].len() implies disjoint(
                    cur as int,
                    k as nat,
                    #[trigger] before[k2][i2] as int,
                    k2 as nat,
                ) by {
                    if i2 < lists0[k2].len() {
                        assert(before[k2].subrange(0, lists0[k2].len() as int)[i2] == before[k2][i2]);
                    }
                }
                assert forall|j: int| 0 <= j < live0.len() implies disjoint(
                    cur as int,
                    k as nat,
                    #[trigger] live0[j].0,
                    live0[j].1,
                ) by {
                    assert(old(self).live()[j] == live0[j]);
                }
                lemma_push_free(before, live0, k as int, cur);
                lemma_free_bytes_update(before, k as int, before[k as int].push(cur));
            }
            self.free_list[k].push(cur);
            self.total = self.total + size;
            proof {
                let after = self.lists();
                assert(after =~= before.update(k as int, before[k as int].push(cur)));
                assert forall|k2: int| 0 <= k2 < lists0.len() implies #[trigger] after[k2].len()
                    >= lists0[k2].len() && after[k2].subrange(0, lists0[k2].len() as int)
                    == lists0[k2] by {
                    if k2 == k {
                        assert(after[k2].subrange(0, lists0[k2].len() as int) =~= before[k2].subrange(
                            0,
                            lists0[k2].len() as int,
                        ));
                    }
                }
                lemma_pow2_pos(k as nat);
                lemma_end_word_aligned(cur as int, k as nat);
                assert forall|k2: int, i2: int|
                    0 <= k2 < ORDER && lists0[k2].len() <= i2 < after[k2].len() implies largest_fit(
                    #[trigger] after[k2][i2] as int,
                    k2 as nat,
                    e as int,
                    ORDER as nat,
                ) by {
                    if k2 != k || i2 < before[k2].len() {
                        assert(after[k2][i2] == before[k2][i2]);
                    }
                }
            }
            cur = cur + size;
        }
        proof {
            assert(self.lists().len() == lists0.len());
        }
    }

    /// Registers the `size` bytes of memory at `start`; the same as
    /// `add_range(start, start + size)`.
    pub fn add_size(&mut self, start: usize, size: usize)
        requires
            old(self).wf(),
            start + size <= usize::MAX,
            old(self).region_unused(start as int, start + size),
            old(self).spec_total() + size <= usize::MAX,
        ensures
            final(self).wf(),
            final(self).live() == old(self).live(),
            final(self).spec_allocated() == old(self).spec_allocated(),
            final(self).spec_total() == old(self).spec_total() + usable_bytes(
                start as int,
                start + size,
                ORDER as nat,
            ),
            extended_within(old(self).lists(), final(self).lists(), start as int, start + size),
            forall|k: int, i: int|
                0 <= k < ORDER && old(self).lists()[k].len() <= i < final(self).lists()[k].len()
                    ==> largest_fit(
                    #[trigger] final(self).lists()[k][i] as int,
                    k as nat,
                    round_down(start + size),
                    ORDER as nat,
                ),
    {
        self.add_range(start, start + size);
    }
}

} // verus!
