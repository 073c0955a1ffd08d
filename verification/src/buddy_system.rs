use vstd::prelude::*;

use vstd::arithmetic::div_mod::lemma_div_by_multiple;
use vstd::arithmetic::div_mod::lemma_div_pos_is_pos;
use vstd::arithmetic::div_mod::lemma_fundamental_div_mod;
use vstd::arithmetic::div_mod::lemma_mod_multiples_basic;
use vstd::arithmetic::div_mod::lemma_small_mod;
use vstd::arithmetic::power2::lemma2_to64;
use vstd::arithmetic::power2::lemma2_to64_rest;
use vstd::arithmetic::power2::lemma_pow2_adds;
use vstd::arithmetic::power2::lemma_pow2_pos;
use vstd::arithmetic::power2::lemma_pow2_strictly_increases;
use vstd::arithmetic::power2::lemma_pow2_unfold;
use vstd::arithmetic::power2::pow2;
use vstd::set_lib::lemma_int_range;
use vstd::set_lib::lemma_len_subset;
use vstd::set_lib::set_int_range;

use crate::pcb::PCB;

verus! {

/// Size in slots of a block of order `k`.
pub open spec fn block_size(k: int) -> nat {
    pow2(k as nat)
}

/// Block `b` of order `k` covers slot `s`.
pub open spec fn covers(b: usize, k: int, s: int) -> bool {
    b <= s < b + block_size(k)
}

/// Every listed block lies inside a pool of `n` slots and starts at a
/// multiple of its own size.
pub open spec fn blocks_in_bounds(fl: Seq<Seq<usize>>, n: int) -> bool {
    forall|k: int, i: int|
        #![trigger fl[k][i]]
        0 <= k < fl.len() && 0 <= i < fl[k].len() ==> fl[k][i] + block_size(k) <= n && (fl[k][i]
            as int) % (block_size(k) as int) == 0
}

/// No two listed blocks overlap: together with the used count this makes
/// the free lists a partition of the free slots.
pub open spec fn blocks_disjoint(fl: Seq<Seq<usize>>) -> bool {
    forall|k1: int, i1: int, k2: int, i2: int|
        #![trigger fl[k1][i1], fl[k2][i2]]
        0 <= k1 < fl.len() && 0 <= i1 < fl[k1].len() && 0 <= k2 < fl.len() && 0 <= i2
            < fl[k2].len() && !(k1 == k2 && i1 == i2) ==> fl[k1][i1] + block_size(k1)
            <= fl[k2][i2] || fl[k2][i2] + block_size(k2) <= fl[k1][i1]
}

/// The buddy of block `b` at order `k`: the other half of the order
/// `k + 1` block that `b` belongs to.
pub open spec fn buddy_of(b: usize, k: int) -> int {
    if ((b as int) / (block_size(k) as int)) % 2 == 0 {
        b + block_size(k)
    } else {
        b - block_size(k)
    }
}

/// No two blocks of one order are buddies of each other: every merge has
/// been carried as far as it can go.
pub open spec fn no_buddy_pairs(fl: Seq<Seq<usize>>) -> bool {
    forall|k: int, i1: int, i2: int|
        #![trigger fl[k][i1], fl[k][i2]]
        0 <= k < fl.len() && 0 <= i1 < fl[k].len() && 0 <= i2 < fl[k].len() ==> fl[k][i2]
            != buddy_of(fl[k][i1], k)
}

/// Slot `s` lies in some listed free block.
pub open spec fn slot_free_in(fl: Seq<Seq<usize>>, s: int) -> bool {
    exists|k: int, i: int|
        #![trigger fl[k][i]]
        0 <= k < fl.len() && 0 <= i < fl[k].len() && covers(fl[k][i], k, s)
}

/// Number of slots covered by the free lists: list length times block
/// size, summed over the orders.
pub open spec fn free_total(fl: Seq<Seq<usize>>) -> nat
    decreases fl.len(),
{
    if fl.len() == 0 {
        0
    } else {
        free_total(fl.drop_last()) + fl.last().len() * block_size(fl.len() - 1)
    }
}

/// The slots of an `n`-slot pool covered by no free block.
pub open spec fn allocated_slots(fl: Seq<Seq<usize>>, n: int) -> Set<int> {
    Set::new(|s: int| 0 <= s < n && !slot_free_in(fl, s))
}

/// Whether some entry of the list equals `x`.
pub open spec fn list_has(s: Seq<usize>, x: int) -> bool {
    exists|i: int| 0 <= i < s.len() && s[i] == x
}

/// First position of `x` in the list; meaningful only when `x` occurs.
pub open spec fn list_find(s: Seq<usize>, x: int) -> int
    decreases s.len(),
{
    if s.len() == 0 {
        0
    } else if s[0] == x {
        0
    } else {
        1 + list_find(s.drop_first(), x)
    }
}

/// Smallest order at or above `k` whose free list is non-empty, or the
/// number of lists when all from `k` up are empty.
pub open spec fn first_free_order(fl: Seq<Seq<usize>>, k: int) -> int
    decreases fl.len() - k,
{
    if k < 0 || k >= fl.len() {
        fl.len() as int
    } else if fl[k].len() > 0 {
        k
    } else {
        first_free_order(fl, k + 1)
    }
}

/// The free lists after the split phase of an allocation: the popped
/// block of order `k` at `b` is halved step by step, and the upper half
/// of each step is listed at its order, from `k - 1` down to `0`.
pub open spec fn split_blocks(fl: Seq<Seq<usize>>, b: usize, k: int) -> Seq<Seq<usize>>
    decreases k,
{
    if k <= 0 {
        fl
    } else {
        split_blocks(
            fl.update(k - 1, fl[k - 1].push((b + block_size(k - 1)) as usize)),
            b,
            k - 1,
        )
    }
}

/// The free lists after merging freed block `b` of order `k` upward: while
/// the buddy of the carried block is listed at the same order, the buddy
/// leaves its list and the two halves continue as one block one order up;
/// the carried block is listed where merging stops.
pub open spec fn merge_blocks(fl: Seq<Seq<usize>>, b: usize, k: int, maxo: int) -> Seq<Seq<usize>>
    decreases maxo - k,
{
    if k < 0 || k >= maxo {
        fl.update(k, fl[k].push(b))
    } else {
        let bd = buddy_of(b, k);
        if list_has(fl[k], bd) {
            let lower = if b as int <= bd {
                b
            } else {
                bd as usize
            };
            merge_blocks(fl.update(k, fl[k].remove(list_find(fl[k], bd))), lower, k + 1, maxo)
        } else {
            fl.update(k, fl[k].push(b))
        }
    }
}

/// The relation between an allocator before and after a successful
/// allocation of slot `idx`: the first non-empty order loses its last
/// block, the split lists the freed halves below it, and one more slot is
/// in use.
pub open spec fn alloc_step(pre: BuddySystem, post: BuddySystem, idx: usize) -> bool {
    let fl = pre.fls();
    let k = first_free_order(fl, 0);
    &&& 0 <= k < fl.len()
    &&& fl[k].len() > 0
    &&& idx == fl[k].last()
    &&& post.fls() == split_blocks(fl.update(k, fl[k].drop_last()), idx, k)
    &&& post.used_count == pre.used_count + 1
    &&& post.pool@ == pre.pool@
    &&& post.max_order == pre.max_order
    &&& post.pool_size == pre.pool_size
}

/// The relation between an allocator before and after deallocating the
/// occupied slot `idx`: the slot's record is cleared, one fewer slot is in
/// use, and the freed block merges upward as far as it can.
pub open spec fn dealloc_step(pre: BuddySystem, post: BuddySystem, idx: usize) -> bool {
    &&& post.fls() == merge_blocks(pre.fls(), idx, 0, pre.max_order as int)
    &&& post.used_count + 1 == pre.used_count
    &&& post.pool@ == pre.pool@.update(idx as int, None::<PCB>)
    &&& post.max_order == pre.max_order
    &&& post.pool_size == pre.pool_size
}

proof fn lemma_pow2_le(a: nat, b: nat)
    requires
        a <= b,
    ensures
        pow2(a) <= pow2(b),
{
    if a < b {
        lemma_pow2_strictly_increases(a, b);
    }
}

proof fn lemma_order_bound(maxo: nat)
    requires
        pow2(maxo) <= usize::MAX,
    ensures
        maxo < 64,
{
    if maxo >= 64 {
        lemma2_to64();
        lemma2_to64_rest();
        lemma_pow2_le(64, maxo);
        assert(usize::MAX < 0x10000000000000000);
    }
}

/// Alignment, range, and involution facts about the buddy of an aligned
/// in-range block of order `k` inside a pool of order `maxo`.
proof fn lemma_buddy_props(b: usize, k: int, maxo: int)
    requires
        0 <= k < maxo,
        (b as int) % (block_size(k) as int) == 0,
        b + block_size(k) <= block_size(maxo),
        block_size(maxo) <= usize::MAX,
    ensures
        ({
            let sz = block_size(k) as int;
            let bd = buddy_of(b, k);
            let m = if b as int <= bd {
                b as int
            } else {
                bd
            };
            &&& 0 <= bd
            &&& bd + sz <= block_size(maxo)
            &&& bd % sz == 0
            &&& bd == b + sz || bd == b - sz
            &&& bd != b as int
            &&& buddy_of(bd as usize, k) == b as int
            &&& m % (block_size(k + 1) as int) == 0
            &&& m + block_size(k + 1) <= block_size(maxo)
            &&& m <= b < m + block_size(k + 1)
            &&& (forall|s: int|
                (covers(b, k, s) || covers(bd as usize, k, s)) <==> m <= s < m + block_size(k + 1))
        }),
{
    let sz = block_size(k) as int;
    let n = block_size(maxo) as int;
    lemma_pow2_pos(k as nat);
    lemma_pow2_unfold((k + 1) as nat);
    assert(block_size(k + 1) == 2 * sz);
    lemma_pow2_adds((k + 1) as nat, (maxo - k - 1) as nat);
    lemma_pow2_pos((maxo - k - 1) as nat);
    let h = pow2((maxo - k - 1) as nat) as int;
    assert(n == 2 * sz * h);
    let q = (b as int) / sz;
    lemma_fundamental_div_mod(b as int, sz);
    lemma_div_pos_is_pos(b as int, sz);
    assert(b == sz * q);
    let bd = buddy_of(b, k);
    if q % 2 == 0 {
        let t = q / 2;
        lemma_fundamental_div_mod(q, 2);
        assert(q == 2 * t);
        assert(bd == b + sz);
        assert(bd == (q + 1) * sz) by (nonlinear_arith)
            requires
                b == sz * q && bd == b + sz,
        ;
        lemma_mod_multiples_basic(q + 1, sz);
        assert(bd % sz == 0);
        lemma_div_by_multiple(q + 1, sz);
        assert(bd / sz == q + 1);
        assert((q + 1) % 2 == 1) by (nonlinear_arith)
            requires
                q == 2 * t,
        ;
        assert(buddy_of(bd as usize, k) == bd - sz == b);
        assert(b == t * (2 * sz) && n == h * (2 * sz)) by (nonlinear_arith)
            requires
                b == sz * q && q == 2 * t && n == 2 * sz * h,
        ;
        lemma_mod_multiples_basic(t, 2 * sz);
        assert((b as int) % (2 * sz) == 0);
        assert(b + 2 * sz <= n) by (nonlinear_arith)
            requires
                b == t * (2 * sz) && n == h * (2 * sz) && sz > 0 && h > 0 && b + sz <= n,
        ;
    } else {
        assert(q >= 1) by (nonlinear_arith)
            requires
                q >= 0 && q % 2 == 1,
        ;
        assert(bd == b - sz);
        assert(bd == (q - 1) * sz) by (nonlinear_arith)
            requires
                b == sz * q && bd == b - sz,
        ;
        lemma_mod_multiples_basic(q - 1, sz);
        assert(bd % sz == 0);
        lemma_div_by_multiple(q - 1, sz);
        assert(bd / sz == q - 1);
        assert((q - 1) % 2 == 0) by (nonlinear_arith)
            requires
                q % 2 == 1 && q >= 1,
        ;
        assert(buddy_of(bd as usize, k) == bd + sz == b);
        let t = (q - 1) / 2;
        lemma_fundamental_div_mod(q - 1, 2);
        assert(q - 1 == 2 * t);
        assert(bd == t * (2 * sz) && n == h * (2 * sz)) by (nonlinear_arith)
            requires
                bd == (q - 1) * sz && q - 1 == 2 * t && n == 2 * sz * h,
        ;
        lemma_mod_multiples_basic(t, 2 * sz);
        assert(bd % (2 * sz) == 0);
        assert(bd + 2 * sz <= n) by (nonlinear_arith)
            requires
                bd == t * (2 * sz) && n == h * (2 * sz) && sz > 0 && h > 0 && bd + sz + sz <= n,
        ;
    }
}

/// A block aligned to order `k` is aligned to every lower order `j`, and
/// its buddy at `j` is its upper neighbour.
proof fn lemma_split_align(b: usize, j: int, k: int)
    requires
        0 <= j < k,
        (b as int) % (block_size(k) as int) == 0,
    ensures
        (b as int) % (block_size(j) as int) == 0,
        buddy_of(b, j) == b + block_size(j),
        ((b + block_size(j)) as int) % (block_size(j) as int) == 0,
{
    let szj = block_size(j) as int;
    let szk = block_size(k) as int;
    lemma_pow2_pos(j as nat);
    lemma_pow2_pos(k as nat);
    lemma_pow2_adds(j as nat, (k - j) as nat);
    lemma_pow2_pos((k - j) as nat);
    lemma_pow2_unfold((k - j) as nat);
    lemma_pow2_pos((k - j - 1) as nat);
    let w = pow2((k - j) as nat) as int;
    let half = pow2((k - j - 1) as nat) as int;
    assert(w == 2 * half);
    let t = (b as int) / szk;
    lemma_fundamental_div_mod(b as int, szk);
    lemma_div_pos_is_pos(b as int, szk);
    assert(b == szk * t);
    assert(szk == szj * w);
    assert(b == (w * t) * szj && w * t >= 0 && w * t == 2 * (half * t) && w * t + 1 == 2 * (half * t)
        + 1 && b + szj == (w * t + 1) * szj) by (nonlinear_arith)
        requires
            b == szk * t && szk == szj * w && w == 2 * half && t >= 0 && w > 0,
    ;
    lemma_mod_multiples_basic(w * t, szj);
    assert((b as int) % szj == 0);
    lemma_div_by_multiple(w * t, szj);
    assert((b as int) / szj == w * t);
    assert((w * t) % 2 == 0) by (nonlinear_arith)
        requires
            w * t == 2 * (half * t),
    ;
    lemma_mod_multiples_basic(w * t + 1, szj);
    assert(((b + szj) as int) % szj == 0);
}

/// Replacing one order's list changes the covered total by the change in
/// that list's contribution.
proof fn lemma_free_total_update(fl: Seq<Seq<usize>>, k: int, l: Seq<usize>)
    requires
        0 <= k < fl.len(),
    ensures
        free_total(fl.update(k, l)) + fl[k].len() * block_size(k) == free_total(fl) + l.len()
            * block_size(k),
    decreases fl.len(),
{
    let fl2 = fl.update(k, l);
    if k == fl.len() - 1 {
        assert(fl2.drop_last() =~= fl.drop_last());
    } else {
        assert(fl2.drop_last() =~= fl.drop_last().update(k, l));
        lemma_free_total_update(fl.drop_last(), k, l);
        assert(fl2.last() == fl.last());
    }
}

/// Appending a block to one order's list adds exactly that block's slots
/// to the free slots.
proof fn lemma_slot_free_push(fl: Seq<Seq<usize>>, k: int, b: usize)
    requires
        0 <= k < fl.len(),
    ensures
        forall|s: int|
            slot_free_in(fl.update(k, fl[k].push(b)), s) <==> (slot_free_in(fl, s) || covers(
                b,
                k,
                s,
            )),
{
    let fl2 = fl.update(k, fl[k].push(b));
    assert forall|s: int| slot_free_in(fl2, s) implies (slot_free_in(fl, s) || covers(b, k, s)) by {
        let (k2, i2): (int, int) = choose|k2: int, i2: int|
            #![trigger fl2[k2][i2]]
            0 <= k2 < fl2.len() && 0 <= i2 < fl2[k2].len() && covers(fl2[k2][i2], k2, s);
        if k2 == k && i2 == fl[k].len() {
            assert(covers(b, k, s));
        } else {
            assert(fl[k2][i2] == fl2[k2][i2]);
        }
    }
    assert forall|s: int| (slot_free_in(fl, s) || covers(b, k, s)) implies slot_free_in(fl2, s) by {
        if slot_free_in(fl, s) {
            let (k2, i2): (int, int) = choose|k2: int, i2: int|
                #![trigger fl[k2][i2]]
                0 <= k2 < fl.len() && 0 <= i2 < fl[k2].len() && covers(fl[k2][i2], k2, s);
            assert(fl2[k2][i2] == fl[k2][i2]);
            assert(covers(fl2[k2][i2], k2, s));
        } else {
            assert(fl2[k][fl[k].len() as int] == b);
        }
    }
}

/// Removing a block from one order's list removes exactly that block's
/// slots from the free slots, provided no other block overlaps it.
proof fn lemma_slot_free_remove(fl: Seq<Seq<usize>>, k: int, p: int)
    requires
        0 <= k < fl.len(),
        0 <= p < fl[k].len(),
        blocks_disjoint(fl),
    ensures
        forall|s: int|
            slot_free_in(fl.update(k, fl[k].remove(p)), s) <==> (slot_free_in(fl, s) && !covers(
                fl[k][p],
                k,
                s,
            )),
{
    let fl2 = fl.update(k, fl[k].remove(p));
    assert forall|s: int| slot_free_in(fl2, s) implies (slot_free_in(fl, s) && !covers(
        fl[k][p],
        k,
        s,
    )) by {
        let (k2, i2): (int, int) = choose|k2: int, i2: int|
            #![trigger fl2[k2][i2]]
            0 <= k2 < fl2.len() && 0 <= i2 < fl2[k2].len() && covers(fl2[k2][i2], k2, s);
        let i3: int = if k2 == k && i2 >= p {
            i2 + 1
        } else {
            i2
        };
        assert(fl[k2][i3] == fl2[k2][i2]);
        assert(covers(fl[k2][i3], k2, s));
        assert(!(k2 == k && i3 == p));
        assert(fl[k2][i3] + block_size(k2) <= fl[k][p] || fl[k][p] + block_size(k) <= fl[k2][i3]);
    }
    assert forall|s: int| (slot_free_in(fl, s) && !covers(fl[k][p], k, s)) implies slot_free_in(
        fl2,
        s,
    ) by {
        let (k2, i2): (int, int) = choose|k2: int, i2: int|
            #![trigger fl[k2][i2]]
            0 <= k2 < fl.len() && 0 <= i2 < fl[k2].len() && covers(fl[k2][i2], k2, s);
        assert(!(k2 == k && i2 == p));
        let i3: int = if k2 == k && i2 > p {
            i2 - 1
        } else {
            i2
        };
        assert(fl2[k2][i3] == fl[k2][i2]);
        assert(covers(fl2[k2][i3], k2, s));
    }
}

/// The set of occupied slots is finite and no larger than the pool.
proof fn lemma_allocated_finite(fl: Seq<Seq<usize>>, n: int)
    requires
        n >= 0,
    ensures
        allocated_slots(fl, n).finite(),
        allocated_slots(fl, n).len() <= n,
{
    lemma_int_range(0, n);
    lemma_len_subset(allocated_slots(fl, n), set_int_range(0, n));
}

/// The first non-empty order: everything below it is empty, and it is
/// non-empty when it is in range.
proof fn lemma_first_free_order_props(fl: Seq<Seq<usize>>, j: int)
    requires
        0 <= j <= fl.len(),
    ensures
        j <= first_free_order(fl, j) <= fl.len(),
        forall|t: int| j <= t < first_free_order(fl, j) ==> fl[t].len() == 0,
        first_free_order(fl, j) < fl.len() ==> fl[first_free_order(fl, j)].len() > 0,
    decreases fl.len() - j,
{
    if j < fl.len() && fl[j].len() == 0 {
        lemma_first_free_order_props(fl, j + 1);
    }
}

/// An order at or past `j` that is non-empty (or one past the end), with
/// everything between empty, is the first free order.
proof fn lemma_ffo_of_match(fl: Seq<Seq<usize>>, j: int, stop: int)
    requires
        0 <= j <= stop <= fl.len(),
        forall|t: int| j <= t < stop ==> fl[t].len() == 0,
        stop == fl.len() || fl[stop].len() > 0,
    ensures
        first_free_order(fl, j) == stop,
    decreases stop - j,
{
    if j < stop {
        lemma_ffo_of_match(fl, j + 1, stop);
    }
}

/// A position that matches `x`, with no match before it, is `list_find`.
proof fn lemma_list_find_of_match(s: Seq<usize>, x: int, stop: int)
    requires
        0 <= stop < s.len(),
        forall|t: int| 0 <= t < stop ==> s[t] != x,
        s[stop] == x,
    ensures
        list_find(s, x) == stop,
    decreases s.len(),
{
    if stop > 0 {
        assert(s.drop_first()[stop - 1] == x);
        assert(forall|t: int| 0 <= t < stop - 1 ==> s.drop_first()[t] != x);
        lemma_list_find_of_match(s.drop_first(), x, stop - 1);
    }
}

/// The covered total is zero exactly when every list is empty.
proof fn lemma_free_total_zero(fl: Seq<Seq<usize>>)
    ensures
        free_total(fl) == 0 <==> (forall|k: int| 0 <= k < fl.len() ==> fl[k].len() == 0),
    decreases fl.len(),
{
    if fl.len() > 0 {
        lemma_free_total_zero(fl.drop_last());
        lemma_pow2_pos((fl.len() - 1) as nat);
        if free_total(fl) == 0 {
            assert(fl.last().len() * block_size(fl.len() - 1) == 0);
            assert(fl.last().len() == 0) by (nonlinear_arith)
                requires
                    fl.last().len() * block_size(fl.len() - 1) == 0 && block_size(fl.len() - 1) > 0,
            ;
            assert forall|k: int| 0 <= k < fl.len() implies fl[k].len() == 0 by {
                if k < fl.len() - 1 {
                    assert(fl.drop_last()[k].len() == 0);
                }
            }
        } else {
            if forall|k: int| 0 <= k < fl.len() ==> fl[k].len() == 0 {
                assert forall|k: int| 0 <= k < fl.drop_last().len() implies fl.drop_last()[k].len()
                    == 0 by {
                    assert(fl[k].len() == 0);
                }
                assert(free_total(fl) == 0);
            }
        }
    }
}

/// Computes `2^k`.
fn pow2_exec(k: usize) -> (r: usize)
    requires
        pow2(k as nat) <= usize::MAX,
    ensures
        r == pow2(k as nat),
{
    proof {
        lemma2_to64();
    }
    let mut r: usize = 1;
    let mut i: usize = 0;
    while i < k
        invariant
            i <= k,
            r == pow2(i as nat),
            pow2(k as nat) <= usize::MAX,
        decreases k - i,
    {
        proof {
            lemma_pow2_unfold((i + 1) as nat);
            lemma_pow2_le((i + 1) as nat, k as nat);
        }
        r = 2 * r;
        i = i + 1;
    }
    r
}

/// First position of `x` in the list, if it occurs.
fn find_in_list(l: &Vec<usize>, x: usize) -> (r: Option<usize>)
    ensures
        match r {
            Some(p) => p < l@.len() && l@[p as int] == x && p == list_find(l@, x as int),
            None => !list_has(l@, x as int),
        },
{
    let mut i: usize = 0;
    while i < l.len() && l[i] != x
        invariant
            0 <= i <= l@.len(),
            forall|t: int| 0 <= t < i ==> l@[t] != x,
        decreases l@.len() - i,
    {
        i += 1;
    }
    if i < l.len() {
        proof {
            lemma_list_find_of_match(l@, x as int, i as int);
        }
        Some(i)
    } else {
        None
    }
}

/// The free lists after a split written out order by order: every order
/// below `k` gains the upper half block of its step.
spec fn split_shape(fl: Seq<Seq<usize>>, b: usize, k: int) -> Seq<Seq<usize>> {
    Seq::new(fl.len(), |i: int|
        if 0 <= i < k {
            fl[i].push((b + block_size(i)) as usize)
        } else {
            fl[i]
        })
}

proof fn lemma_split_blocks_shape(fl: Seq<Seq<usize>>, b: usize, k: int)
    requires
        0 <= k <= fl.len(),
    ensures
        split_blocks(fl, b, k) == split_shape(fl, b, k),
    decreases k,
{
    if k == 0 {
        assert(split_shape(fl, b, 0) =~= fl);
    } else {
        let fl2 = fl.update(k - 1, fl[k - 1].push((b + block_size(k - 1)) as usize));
        lemma_split_blocks_shape(fl2, b, k - 1);
        assert(split_shape(fl2, b, k - 1) =~= split_shape(fl, b, k));
    }
}

/// The intermediate state while a freshly split allocation is merged back:
/// the orders from `j` up to the split order still hold their upper-half
/// singletons; everything below `j` has been consumed again.
spec fn merge_back_state(fl0: Seq<Seq<usize>>, k0: int, idx: usize, j: int) -> Seq<Seq<usize>> {
    Seq::new(fl0.len(), |i: int|
        if j <= i < k0 {
            fl0[i].push((idx + block_size(i)) as usize)
        } else if i == k0 {
            fl0[k0].drop_last()
        } else {
            fl0[i]
        })
}

proof fn lemma_merge_undoes_split(fl0: Seq<Seq<usize>>, k0: int, maxo: int, idx: usize, j: int)
    requires
        fl0.len() == maxo + 1,
        0 <= k0 <= maxo,
        fl0[k0].len() > 0,
        idx == fl0[k0].last(),
        forall|t: int| 0 <= t < k0 ==> fl0[t].len() == 0,
        blocks_in_bounds(fl0, block_size(maxo) as int),
        no_buddy_pairs(fl0),
        block_size(maxo) <= usize::MAX,
        0 <= j <= k0,
    ensures
        merge_blocks(merge_back_state(fl0, k0, idx, j), idx, j, maxo) == fl0,
    decreases k0 - j,
{
    let last: int = fl0[k0].len() - 1;
    assert(fl0[k0][last] == idx);
    assert((idx as int) % (block_size(k0) as int) == 0 && idx + block_size(k0) <= block_size(
        maxo,
    ));
    let st = merge_back_state(fl0, k0, idx, j);
    if j == k0 {
        // the carried block is the one that was popped; its buddy is not
        // listed, because merging had already been carried as far as it
        // could go before the allocation
        if j < maxo {
            let bd = buddy_of(idx, k0);
            assert(!list_has(st[k0], bd)) by {
                if list_has(st[k0], bd) {
                    let t = choose|t: int| 0 <= t < st[k0].len() && st[k0][t] == bd;
                    assert(st[k0][t] == fl0[k0][t]);
                    assert(fl0[k0][t] != buddy_of(fl0[k0][last], k0));
                }
            }
        }
        let res = st.update(j, st[j].push(idx));
        assert(st[j].push(idx) =~= fl0[k0]);
        assert(res =~= fl0);
    } else {
        lemma_pow2_le(j as nat, k0 as nat);
        lemma_pow2_le(k0 as nat, maxo as nat);
        lemma_pow2_pos(j as nat);
        lemma_split_align(idx, j, k0);
        assert(idx + block_size(j) <= block_size(maxo));
        let half: usize = (idx + block_size(j)) as usize;
        assert(st[j].len() == 1 && st[j][0] == half);
        assert(buddy_of(idx, j) == half as int);
        assert(list_has(st[j], half as int));
        lemma_list_find_of_match(st[j], half as int, 0);
        assert(st[j].remove(0) =~= fl0[j]);
        let st2 = st.update(j, st[j].remove(0));
        assert(st2 =~= merge_back_state(fl0, k0, idx, j + 1));
        assert(idx as int <= half as int);
        lemma_merge_undoes_split(fl0, k0, maxo, idx, j + 1);
        assert(merge_blocks(st, idx, j, maxo) == merge_blocks(st2, idx, j + 1, maxo));
    }
}

/// Law: in every well-formed allocator state the used count and the slots
/// covered by the free lists account for the whole pool: `used_count`
/// plus the covered total equals `pool_size`, so the free count reported
/// as `pool_size - used_count` is exactly the covered total.
pub proof fn lemma_pool_accounting(b: BuddySystem)
    requires
        b.wf(),
    ensures
        b.used_count + free_total(b.fls()) == b.pool_size,
        free_total(b.fls()) == b.pool_size - b.used_count,
{
    reveal(BuddySystem::wf);
}

/// Law: an allocation followed at once by deallocating the slot it
/// returned restores the free lists exactly as they were, and the used
/// count with them: merging reverses splitting.
pub proof fn lemma_allocate_deallocate_round_trip(
    pre: BuddySystem,
    mid: BuddySystem,
    post: BuddySystem,
    idx: usize,
)
    requires
        pre.wf(),
        alloc_step(pre, mid, idx),
        dealloc_step(mid, post, idx),
    ensures
        post.fls() == pre.fls(),
        post.used_count == pre.used_count,
{
    reveal(BuddySystem::wf);
    let fl0 = pre.fls();
    let maxo = pre.max_order as int;
    let k0 = first_free_order(fl0, 0);
    lemma_first_free_order_props(fl0, 0);
    let fl_pop = fl0.update(k0, fl0[k0].drop_last());
    lemma_split_blocks_shape(fl_pop, idx, k0);
    assert(split_shape(fl_pop, idx, k0) =~= merge_back_state(fl0, k0, idx, 0));
    lemma_merge_undoes_split(fl0, k0, maxo, idx, 0);
}

/// The buddy-system allocator that manages the pool of process control
/// blocks. The pool holds `pool_size == 2^max_order` slots; `free_list[k]`
/// lists the start index of every free block of `2^k` slots.
pub struct BuddySystem {
    pub pool: Vec<Option<PCB>>,
    pub free_list: Vec<Vec<usize>>,
    pub max_order: usize,
    pub pool_size: usize,
    pub used_count: usize,
}

impl BuddySystem {
    /// Builds a pool of the smallest power-of-two size that holds
    /// `requested_size` slots, wholly free: one block of the highest
    /// order.
    pub fn new(requested_size: usize) -> (r: BuddySystem)
        requires
            requested_size <= usize::MAX / 2 + 1,
        ensures
            r.wf(),
            r.used_count == 0,
            r.pool_size >= requested_size,
            r.max_order == 0 || block_size(r.max_order - 1) < requested_size,
            forall|s: int| 0 <= s < r.pool_size ==> r.slot_free(s),
            r.pool@ =~= Seq::new(r.pool_size as nat, |i: int| None::<PCB>),
    {
        proof {
            reveal(BuddySystem::wf);
            reveal(BuddySystem::slot_free);
            lemma2_to64();
        }
        let mut pool_size: usize = 1;
        let mut max_order: usize = 0;
        while pool_size < requested_size
            invariant
                pool_size >= 1,
                pool_size == pow2(max_order as nat),
                max_order == 0 || pow2((max_order - 1) as nat) < requested_size,
                requested_size <= usize::MAX / 2 + 1,
            decreases 2 * requested_size - pool_size,
        {
            proof {
                lemma_pow2_unfold((max_order + 1) as nat);
                lemma_order_bound(max_order as nat);
            }
            pool_size = 2 * pool_size;
            max_order = max_order + 1;
        }
        proof {
            lemma_order_bound(max_order as nat);
        }
        let mut free_list: Vec<Vec<usize>> = Vec::new();
        let mut k: usize = 0;
        while k < max_order + 1
            invariant
                max_order <= 63,
                k <= max_order + 1,
                free_list@.len() == k,
                forall|t: int| 0 <= t < k ==> free_list@[t]@.len() == 0,
            decreases max_order + 1 - k,
        {
            free_list.push(Vec::new());
            k += 1;
        }
        free_list[max_order].push(0);
        let mut pool: Vec<Option<PCB>> = Vec::new();
        let mut i: usize = 0;
        while i < pool_size
            invariant
                i <= pool_size,
                pool@ =~= Seq::new(i as nat, |t: int| None::<PCB>),
            decreases pool_size - i,
        {
            pool.push(None);
            i += 1;
        }
        let r = BuddySystem { pool, free_list, max_order, pool_size, used_count: 0 };
        proof {
            let fl = r.fls();
            let n = r.pool_size as int;
            let maxo = r.max_order as int;
            lemma_pow2_pos(maxo as nat);
            lemma_small_mod(0, block_size(maxo));
            assert(fl[maxo].len() == 1 && fl[maxo][0] == 0);
            assert(forall|t: int| 0 <= t < maxo ==> fl[t].len() == 0);
            assert(blocks_in_bounds(fl, n));
            assert(blocks_disjoint(fl));
            assert(no_buddy_pairs(fl));
            assert forall|s: int| 0 <= s < n implies r.slot_free(s) by {
                assert(covers(fl[maxo][0], maxo, s));
            }
            assert(allocated_slots(fl, n) =~= Set::<int>::empty());
            assert(fl.drop_last() =~= Seq::new(maxo as nat, |t: int| fl[t]));
            lemma_free_total_zero(fl.drop_last());
            assert(free_total(fl) == free_total(fl.drop_last()) + fl.last().len() * block_size(
                maxo,
            ));
            assert(fl.last().len() * block_size(maxo) == block_size(maxo)) by (nonlinear_arith)
                requires
                    fl.last().len() == 1,
            ;
        }
        r
    }

    /// Whether slot `index` lies inside some listed free block.
    pub fn slot_is_free(&self, index: usize) -> (r: bool)
        requires
            self.wf(),
        ensures
            r <==> self.slot_free(index as int),
    {
        proof {
            reveal(BuddySystem::wf);
            reveal(BuddySystem::slot_free);
        }
        let mut k: usize = 0;
        while k < self.free_list.len()
            invariant
                self.wf(),
                k <= self.free_list@.len(),
                forall|k2: int, i: int|
                    #![trigger self.fls()[k2][i]]
                    0 <= k2 < k && 0 <= i < self.fls()[k2].len() ==> !covers(
                        self.fls()[k2][i],
                        k2,
                        index as int,
                    ),
            decreases self.free_list@.len() - k,
        {
            proof {
                reveal(BuddySystem::wf);
                lemma_pow2_le(k as nat, self.max_order as nat);
            }
            let size = pow2_exec(k);
            let mut i: usize = 0;
            while i < self.free_list[k].len()
                invariant
                    self.wf(),
                    k < self.free_list@.len(),
                    size == block_size(k as int),
                    i <= self.fls()[k as int].len(),
                    forall|t: int|
                        0 <= t < i ==> !covers(self.fls()[k as int][t], k as int, index as int),
                decreases self.fls()[k as int].len() - i,
            {
                proof {
                    reveal(BuddySystem::wf);
                }
                let b = self.free_list[k][i];
                if b <= index && index < b + size {
                    proof {
                        reveal(BuddySystem::slot_free);
                        assert(covers(self.fls()[k as int][i as int], k as int, index as int));
                    }
                    return true;
                }
                i += 1;
            }
            k += 1;
        }
        proof {
            reveal(BuddySystem::wf);
            reveal(BuddySystem::slot_free);
            if self.slot_free(index as int) {
                let (k2, i2): (int, int) = choose|k2: int, i2: int|
                    #![trigger self.fls()[k2][i2]]
                    0 <= k2 < self.fls().len() && 0 <= i2 < self.fls()[k2].len() && covers(
                        self.fls()[k2][i2],
                        k2,
                        index as int,
                    );
                assert(!covers(self.fls()[k2][i2], k2, index as int));
            }
        }
        false
    }

    /// The free lists as mathematical sequences.
    pub open spec fn fls(self) -> Seq<Seq<usize>> {
        Seq::new(self.free_list@.len(), |k: int| self.free_list@[k]@)
    }

    /// Slot `s` lies in some free block.
    #[verifier::opaque]
    pub open spec fn slot_free(self, s: int) -> bool {
        slot_free_in(self.fls(), s)
    }

    /// The allocator's invariant: the pool is a power of two of slots;
    /// free blocks lie in bounds, are aligned, do not overlap, and are
    /// merged as far as possible; the used count is both the number of
    /// slots outside every free block and what the free-block sizes leave
    /// of the pool.
    #[verifier::opaque]
    pub open spec fn wf(self) -> bool {
        &&& self.pool_size == block_size(self.max_order as int)
        &&& self.pool@.len() == self.pool_size
        &&& self.fls().len() == self.max_order + 1
        &&& blocks_in_bounds(self.fls(), self.pool_size as int)
        &&& blocks_disjoint(self.fls())
        &&& no_buddy_pairs(self.fls())
        &&& self.used_count == allocated_slots(self.fls(), self.pool_size as int).len()
        &&& self.used_count + free_total(self.fls()) == self.pool_size
    }

    /// Smallest order whose free list is non-empty, or one past the last
    /// order when every list is empty.
    fn first_nonempty_order(&self) -> (k: usize)
        ensures
            k == first_free_order(self.fls(), 0),
    {
        let mut k: usize = 0;
        while k < self.free_list.len() && self.free_list[k].len() == 0
            invariant
                k <= self.free_list@.len(),
                forall|t: int| 0 <= t < k ==> self.fls()[t].len() == 0,
            decreases self.free_list@.len() - k,
        {
            k += 1;
        }
        proof {
            lemma_ffo_of_match(self.fls(), 0, k as int);
        }
        k
    }

    /// Takes one unit slot out of the pool: the first non-empty order
    /// loses its last block, whose lower half is halved again and again
    /// until one slot remains; every upper half is listed free at its own
    /// order. Fails exactly when the pool is fully used.
    pub fn allocate(&mut self) -> (r: Option<usize>)
        requires
            old(self).wf(),
        ensures
            final(self).wf(),
            final(self).max_order == old(self).max_order,
            final(self).pool_size == old(self).pool_size,
            final(self).pool@ == old(self).pool@,
            r is None <==> old(self).used_count == old(self).pool_size,
            r is None ==> final(self).fls() == old(self).fls()
                && final(self).used_count == old(self).used_count
                && (forall|s: int| final(self).slot_free(s) == old(self).slot_free(s)),
            r matches Some(idx) ==> (alloc_step(*old(self), *final(self), idx)
                && idx < old(self).pool_size
                && old(self).slot_free(idx as int)
                && !final(self).slot_free(idx as int)
                && (forall|s: int|
                    s != idx ==> final(self).slot_free(s) == old(self).slot_free(s))
                && final(self).used_count == old(self).used_count + 1),
    {
        proof {
            reveal(BuddySystem::wf);
            reveal(BuddySystem::slot_free);
        }
        let ghost fl0 = self.fls();
        let ghost n = self.pool_size as int;
        let ghost maxo = self.max_order as int;
        let k0 = self.first_nonempty_order();
        if k0 >= self.free_list.len() {
            proof {
                lemma_first_free_order_props(fl0, 0);
                lemma_free_total_zero(fl0);
            }
            return None;
        }
        let ghost k0i = k0 as int;
        proof {
            lemma_first_free_order_props(fl0, 0);
            lemma_free_total_zero(fl0);
            lemma2_to64();
        }
        let index = self.free_list[k0].pop().unwrap();
        let ghost fl_pop = fl0.update(k0i, fl0[k0i].drop_last());
        proof {
            assert(self.fls() =~= fl_pop);
            let last: int = fl0[k0i].len() - 1;
            assert(fl0[k0i][last] == index);
            assert(fl0[k0i].remove(last) =~= fl0[k0i].drop_last());
            lemma_slot_free_remove(fl0, k0i, last);
            lemma_free_total_update(fl0, k0i, fl0[k0i].drop_last());
            assert(fl0[k0i].len() * block_size(k0i) == (fl0[k0i].len() - 1) * block_size(k0i)
                + block_size(k0i)) by (nonlinear_arith);
            assert(free_total(fl_pop) + block_size(k0i) == free_total(fl0));
            assert forall|k2: int, i2: int|
                #![trigger fl_pop[k2][i2]]
                0 <= k2 < fl_pop.len() && 0 <= i2 < fl_pop[k2].len() implies fl_pop[k2][i2]
                + block_size(k2) <= index || index + block_size(k0i) <= fl_pop[k2][i2] by {
                assert(fl_pop[k2][i2] == fl0[k2][i2]);
                assert(!(k2 == k0i && i2 == last));
            }
            assert forall|s: int| index <= s < index + block_size(k0i) implies slot_free_in(
                fl0,
                s,
            ) by {
                assert(covers(fl0[k0i][last], k0i, s));
            }
        }
        let mut alloc_order = k0;
        while alloc_order > 0
            invariant
                self.max_order == old(self).max_order,
                self.pool_size == old(self).pool_size,
                self.pool@ == old(self).pool@,
                self.used_count == old(self).used_count,
                n == self.pool_size as int,
                maxo == self.max_order as int,
                old(self).wf(),
                fl0 == old(self).fls(),
                k0i == k0 as int,
                0 <= k0i <= maxo,
                k0i == first_free_order(fl0, 0),
                fl0[k0i].len() > 0,
                index == fl0[k0i].last(),
                fl_pop == fl0.update(k0i, fl0[k0i].drop_last()),
                alloc_order <= k0,
                self.fls().len() == maxo + 1,
                index + block_size(alloc_order as int) <= n,
                (index as int) % (block_size(alloc_order as int) as int) == 0,
                blocks_in_bounds(self.fls(), n),
                blocks_disjoint(self.fls()),
                no_buddy_pairs(self.fls()),
                forall|k2: int, i2: int|
                    #![trigger self.fls()[k2][i2]]
                    0 <= k2 < self.fls().len() && 0 <= i2 < self.fls()[k2].len()
                        ==> self.fls()[k2][i2] + block_size(k2) <= index || index + block_size(
                        alloc_order as int,
                    ) <= self.fls()[k2][i2],
                split_blocks(self.fls(), index, alloc_order as int) == split_blocks(
                    fl_pop,
                    index,
                    k0i,
                ),
                free_total(self.fls()) + block_size(alloc_order as int) == free_total(fl0),
                forall|s: int|
                    slot_free_in(self.fls(), s) <==> (slot_free_in(fl0, s) && !(index <= s < index
                        + block_size(alloc_order as int))),
                forall|s: int|
                    index <= s < index + block_size(alloc_order as int) ==> slot_free_in(fl0, s),
            decreases alloc_order,
        {
            let ghost cur = self.fls();
            let ghost jp = alloc_order as int;
            alloc_order -= 1;
            let ghost j = alloc_order as int;
            proof {
                reveal(BuddySystem::wf);
                lemma_pow2_le(alloc_order as nat, self.max_order as nat);
                lemma_pow2_unfold(jp as nat);
                lemma_pow2_pos(j as nat);
                lemma_split_align(index, j, jp);
            }
            let size = pow2_exec(alloc_order);
            let buddy_index = index + size;
            self.free_list[alloc_order].push(buddy_index);
            proof {
                let cur2 = self.fls();
                assert(cur2 =~= cur.update(j, cur[j].push(buddy_index)));
                let newi: int = cur[j].len() as int;
                assert(cur2[j][newi] == buddy_index);
                // bounds and alignment of the listed upper half
                assert(buddy_index + block_size(j) <= n);
                // the upper half sits inside the old reserved range
                assert forall|k2: int, i2: int|
                    #![trigger cur2[k2][i2]]
                    0 <= k2 < cur2.len() && 0 <= i2 < cur2[k2].len() implies cur2[k2][i2]
                    + block_size(k2) <= index || index + block_size(j) <= cur2[k2][i2] by {
                    if k2 == j && i2 == newi {
                    } else {
                        assert(cur2[k2][i2] == cur[k2][i2]);
                        assert(cur[k2][i2] + block_size(k2) <= index || index + block_size(jp)
                            <= cur[k2][i2]);
                    }
                }
                assert(blocks_in_bounds(cur2, n)) by {
                    assert forall|k2: int, i2: int|
                        #![trigger cur2[k2][i2]]
                        0 <= k2 < cur2.len() && 0 <= i2 < cur2[k2].len() implies cur2[k2][i2]
                        + block_size(k2) <= n && (cur2[k2][i2] as int) % (block_size(k2) as int)
                        == 0 by {
                        if !(k2 == j && i2 == newi) {
                            assert(cur2[k2][i2] == cur[k2][i2]);
                        }
                    }
                }
                assert(blocks_disjoint(cur2)) by {
                    assert forall|ka: int, ia: int, kb: int, ib: int|
                        #![trigger cur2[ka][ia], cur2[kb][ib]]
                        0 <= ka < cur2.len() && 0 <= ia < cur2[ka].len() && 0 <= kb < cur2.len()
                            && 0 <= ib < cur2[kb].len() && !(ka == kb && ia == ib) implies
                        cur2[ka][ia] + block_size(ka) <= cur2[kb][ib] || cur2[kb][ib] + block_size(
                            kb,
                        ) <= cur2[ka][ia] by {
                        if ka == j && ia == newi {
                            assert(cur2[kb][ib] == cur[kb][ib]);
                            assert(cur[kb][ib] + block_size(kb) <= index || index + block_size(jp)
                                <= cur[kb][ib]);
                        } else if kb == j && ib == newi {
                            assert(cur2[ka][ia] == cur[ka][ia]);
                            assert(cur[ka][ia] + block_size(ka) <= index || index + block_size(jp)
                                <= cur[ka][ia]);
                        } else {
                            assert(cur2[ka][ia] == cur[ka][ia] && cur2[kb][ib] == cur[kb][ib]);
                        }
                    }
                }
                assert(no_buddy_pairs(cur2)) by {
                    lemma_buddy_props(index, j, maxo);
                    assert forall|k2: int, i1: int, i2: int|
                        #![trigger cur2[k2][i1], cur2[k2][i2]]
                        0 <= k2 < cur2.len() && 0 <= i1 < cur2[k2].len() && 0 <= i2
                            < cur2[k2].len() implies cur2[k2][i2] != buddy_of(cur2[k2][i1], k2) by {
                        if k2 == j && i1 == newi && i2 == newi {
                            assert(buddy_of(buddy_index, j) == index);
                        } else if k2 == j && i1 == newi {
                            assert(cur2[k2][i2] == cur[k2][i2]);
                            assert(buddy_of(buddy_index, j) == index);
                            assert(cur[j][i2] + block_size(j) <= index || index + block_size(j)
                                <= cur[j][i2]);
                        } else if k2 == j && i2 == newi {
                            assert(cur2[k2][i1] == cur[k2][i1]);
                            if buddy_index == buddy_of(cur[j][i1], j) {
                                lemma_buddy_props(cur[j][i1], j, maxo);
                                assert(buddy_of(buddy_index, j) == cur[j][i1]);
                                assert(buddy_of(buddy_index, j) == index);
                                assert(cur[j][i1] + block_size(j) <= index || index + block_size(
                                    j,
                                ) <= cur[j][i1]);
                            }
                        } else {
                            assert(cur2[k2][i1] == cur[k2][i1] && cur2[k2][i2] == cur[k2][i2]);
                        }
                    }
                }
                // the split relation takes one definitional step
                assert(split_blocks(cur, index, jp) == split_blocks(cur2, index, j));
                // covered totals
                lemma_free_total_update(cur, j, cur[j].push(buddy_index));
                assert((cur[j].len() + 1) * block_size(j) == cur[j].len() * block_size(j)
                    + block_size(j)) by (nonlinear_arith);
                assert(free_total(cur2) + block_size(j) == free_total(fl0));
                // per-slot free coverage
                lemma_slot_free_push(cur, j, buddy_index);
                assert forall|s: int|
                    slot_free_in(cur2, s) <==> (slot_free_in(fl0, s) && !(index <= s < index
                        + block_size(j))) by {
                    if index + block_size(j) <= s < index + block_size(jp) {
                        assert(covers(buddy_index, j, s));
                        assert(slot_free_in(fl0, s));
                    }
                }
            }
        }
        proof {
            assert(block_size(0) == 1);
            assert(slot_free_in(fl0, index as int));
            let alloc0 = allocated_slots(fl0, n);
            let alloc1 = allocated_slots(self.fls(), n);
            lemma_allocated_finite(fl0, n);
            lemma_allocated_finite(self.fls(), n);
            assert(alloc1 =~= alloc0.insert(index as int));
            vstd::set::axiom_set_insert_len(alloc0, index as int);
            assert(alloc1.len() == alloc0.len() + 1);
            assert(free_total(fl0) > 0);
        }
        self.used_count += 1;
        proof {
            assert(first_free_order(fl0, 0) == k0i);
            assert(alloc_step(*old(self), *self, index));
        }
        Some(index)
    }

    /// Returns slot `index` to the pool: the slot's record is cleared and
    /// its unit block merges with its buddy as long as the buddy is free,
    /// moving up one order per merge. Out-of-range indices and slots that
    /// are already free are left exactly as they are, so a double free
    /// cannot corrupt the free lists or the used count.
    #[verifier::rlimit(60)]
    pub fn deallocate(&mut self, index: usize)
        requires
            old(self).wf(),
        ensures
            final(self).wf(),
            final(self).max_order == old(self).max_order,
            final(self).pool_size == old(self).pool_size,
            (index >= old(self).pool_size || old(self).slot_free(index as int)) ==> (final(
                self).fls() == old(self).fls() && final(self).pool@ == old(self).pool@ && final(
                self).used_count == old(self).used_count),
            index < old(self).pool_size && !old(self).slot_free(index as int) ==> (dealloc_step(
                *old(self),
                *final(self),
                index,
            ) && final(self).slot_free(index as int) && (forall|s: int|
                s != index ==> final(self).slot_free(s) == old(self).slot_free(s))),
    {
        proof {
            reveal(BuddySystem::wf);
            reveal(BuddySystem::slot_free);
        }
        if index >= self.pool_size {
            return;
        }
        if self.slot_is_free(index) {
            return;
        }
        let ghost fl0 = self.fls();
        let ghost n = self.pool_size as int;
        let ghost maxo = self.max_order as int;
        let ghost used0 = self.used_count;
        self.pool[index] = None;
        proof {
            let alloc0 = allocated_slots(fl0, n);
            lemma_allocated_finite(fl0, n);
            assert(alloc0.contains(index as int));
            if used0 == 0 {
                alloc0.lemma_len0_is_empty();
                assert(false);
            }
        }
        self.used_count -= 1;
        proof {
            lemma2_to64();
            assert((index as int) % 1int == 0) by (nonlinear_arith);
        }
        let mut b = index;
        let mut order: usize = 0;
        loop
            invariant_except_break
                self.max_order == old(self).max_order,
                self.pool_size == old(self).pool_size,
                self.pool@ == old(self).pool@.update(index as int, None::<PCB>),
                self.used_count + 1 == used0,
                used0 == old(self).used_count,
                n == self.pool_size as int,
                maxo == self.max_order as int,
                old(self).wf(),
                fl0 == old(self).fls(),
                index < n,
                !slot_free_in(fl0, index as int),
                order <= maxo,
                self.fls().len() == maxo + 1,
                (b as int) % (block_size(order as int) as int) == 0,
                b + block_size(order as int) <= n,
                b <= index < b + block_size(order as int),
                blocks_in_bounds(self.fls(), n),
                blocks_disjoint(self.fls()),
                no_buddy_pairs(self.fls()),
                forall|k2: int, i2: int|
                    #![trigger self.fls()[k2][i2]]
                    0 <= k2 < self.fls().len() && 0 <= i2 < self.fls()[k2].len()
                        ==> self.fls()[k2][i2] + block_size(k2) <= b || b + block_size(
                        order as int,
                    ) <= self.fls()[k2][i2],
                merge_blocks(self.fls(), b, order as int, maxo) == merge_blocks(
                    fl0,
                    index,
                    0,
                    maxo,
                ),
                free_total(self.fls()) + block_size(order as int) == free_total(fl0) + 1,
                forall|s: int|
                    (slot_free_in(self.fls(), s) || b <= s < b + block_size(order as int)) <==> (
                    slot_free_in(fl0, s) || s == index),
            ensures
                self.max_order == old(self).max_order,
                self.pool_size == old(self).pool_size,
                self.pool@ == old(self).pool@.update(index as int, None::<PCB>),
                self.used_count + 1 == used0,
                self.fls().len() == maxo + 1,
                self.fls() == merge_blocks(fl0, index, 0, maxo),
                blocks_in_bounds(self.fls(), n),
                blocks_disjoint(self.fls()),
                no_buddy_pairs(self.fls()),
                free_total(self.fls()) == free_total(fl0) + 1,
                forall|s: int|
                    slot_free_in(self.fls(), s) <==> (slot_free_in(fl0, s) || s == index),
            decreases maxo - order,
        {
            let ghost cur = self.fls();
            let ghost oi = order as int;
            proof {
                reveal(BuddySystem::wf);
            }
            if order >= self.max_order {
                self.free_list[order].push(b);
                proof {
                    let cur2 = self.fls();
                    assert(cur2 =~= cur.update(oi, cur[oi].push(b)));
                    let newi: int = cur[oi].len() as int;
                    assert(cur2[oi][newi] == b);
                    lemma_pow2_pos(oi as nat);
                    assert forall|k2: int, i2: int|
                        #![trigger cur2[k2][i2]]
                        0 <= k2 < cur2.len() && 0 <= i2 < cur2[k2].len() && !(k2 == oi && i2
                            == newi) implies cur2[k2][i2] == cur[k2][i2] by {}
                    assert(blocks_in_bounds(cur2, n));
                    assert(blocks_disjoint(cur2));
                    assert(no_buddy_pairs(cur2)) by {
                        assert forall|k2: int, i1: int, i2: int|
                            #![trigger cur2[k2][i1], cur2[k2][i2]]
                            0 <= k2 < cur2.len() && 0 <= i1 < cur2[k2].len() && 0 <= i2
                                < cur2[k2].len() implies cur2[k2][i2] != buddy_of(
                            cur2[k2][i1],
                            k2,
                        ) by {
                            if k2 == oi && (i1 == newi || i2 == newi) {
                                if i1 != newi || i2 != newi {
                                    let other: int = if i1 == newi {
                                        i2
                                    } else {
                                        i1
                                    };
                                    assert(cur2[oi][other] == cur[oi][other]);
                                    assert(cur[oi][other] + block_size(oi) <= b || b + block_size(
                                        oi,
                                    ) <= cur[oi][other]);
                                    assert(cur[oi][other] + block_size(oi) <= n);
                                }
                            }
                        }
                    }
                    assert(merge_blocks(cur, b, oi, maxo) == cur2);
                    lemma_free_total_update(cur, oi, cur[oi].push(b));
                    assert((cur[oi].len() + 1) * block_size(oi) == cur[oi].len() * block_size(oi)
                        + block_size(oi)) by (nonlinear_arith);
                    lemma_slot_free_push(cur, oi, b);
                }
                break ;
            }
            proof {
                lemma_pow2_le(order as nat, self.max_order as nat);
                lemma_buddy_props(b, oi, maxo);
                lemma_pow2_unfold((oi + 1) as nat);
            }
            let size = pow2_exec(order);
            let bd: usize = if (b / size) % 2 == 0 {
                b + size
            } else {
                b - size
            };
            proof {
                assert(bd as int == buddy_of(b, oi));
            }
            match find_in_list(&self.free_list[order], bd) {
                Some(pos) => {
                    self.free_list[order].remove(pos);
                    proof {
                        let cur2 = self.fls();
                        assert(cur2 =~= cur.update(oi, cur[oi].remove(pos as int)));
                        let m: usize = if bd < b {
                            bd
                        } else {
                            b
                        };
                        lemma_slot_free_remove(cur, oi, pos as int);
                        lemma_free_total_update(cur, oi, cur[oi].remove(pos as int));
                        assert(cur[oi].len() * block_size(oi) == (cur[oi].len() - 1) * block_size(
                            oi,
                        ) + block_size(oi)) by (nonlinear_arith);
                        assert forall|k2: int, i2: int|
                            #![trigger cur2[k2][i2]]
                            0 <= k2 < cur2.len() && 0 <= i2 < cur2[k2].len() implies ({
                            let i3 = if k2 == oi && i2 >= pos {
                                i2 + 1
                            } else {
                                i2
                            };
                            &&& cur2[k2][i2] == cur[k2][i3]
                            &&& 0 <= i3 < cur[k2].len()
                            &&& !(k2 == oi && i3 == pos)
                        }) by {}
                        assert(blocks_in_bounds(cur2, n));
                        assert(blocks_disjoint(cur2)) by {
                            assert forall|ka: int, ia: int, kb: int, ib: int|
                                #![trigger cur2[ka][ia], cur2[kb][ib]]
                                0 <= ka < cur2.len() && 0 <= ia < cur2[ka].len() && 0 <= kb
                                    < cur2.len() && 0 <= ib < cur2[kb].len() && !(ka == kb && ia
                                    == ib) implies cur2[ka][ia] + block_size(ka) <= cur2[kb][ib]
                                || cur2[kb][ib] + block_size(kb) <= cur2[ka][ia] by {
                                let ia3 = if ka == oi && ia >= pos {
                                    ia + 1
                                } else {
                                    ia
                                };
                                let ib3 = if kb == oi && ib >= pos {
                                    ib + 1
                                } else {
                                    ib
                                };
                                assert(cur2[ka][ia] == cur[ka][ia3] && cur2[kb][ib]
                                    == cur[kb][ib3]);
                            }
                        }
                        assert(no_buddy_pairs(cur2)) by {
                            assert forall|k2: int, i1: int, i2: int|
                                #![trigger cur2[k2][i1], cur2[k2][i2]]
                                0 <= k2 < cur2.len() && 0 <= i1 < cur2[k2].len() && 0 <= i2
                                    < cur2[k2].len() implies cur2[k2][i2] != buddy_of(
                                cur2[k2][i1],
                                k2,
                            ) by {
                                let i13 = if k2 == oi && i1 >= pos {
                                    i1 + 1
                                } else {
                                    i1
                                };
                                let i23 = if k2 == oi && i2 >= pos {
                                    i2 + 1
                                } else {
                                    i2
                                };
                                assert(cur2[k2][i1] == cur[k2][i13] && cur2[k2][i2]
                                    == cur[k2][i23]);
                            }
                        }
                        // the carried block and the buddy join into one
                        // block of the next order
                        assert(cur[oi][pos as int] == bd);
                        assert forall|k2: int, i2: int|
                            #![trigger cur2[k2][i2]]
                            0 <= k2 < cur2.len() && 0 <= i2 < cur2[k2].len() implies cur2[k2][i2]
                            + block_size(k2) <= m || m + block_size(oi + 1) <= cur2[k2][i2] by {
                            let i3 = if k2 == oi && i2 >= pos {
                                i2 + 1
                            } else {
                                i2
                            };
                            assert(cur2[k2][i2] == cur[k2][i3]);
                            assert(cur[k2][i3] + block_size(k2) <= b || b + block_size(oi)
                                <= cur[k2][i3]);
                            assert(cur[k2][i3] + block_size(k2) <= cur[oi][pos as int]
                                || cur[oi][pos as int] + block_size(oi) <= cur[k2][i3]);
                        }
                        // one merging step of the specification
                        assert(list_has(cur[oi], bd as int));
                        lemma_list_find_of_match(cur[oi], bd as int, pos as int);
                        assert(merge_blocks(cur, b, oi, maxo) == merge_blocks(
                            cur2,
                            m,
                            oi + 1,
                            maxo,
                        ));
                        assert forall|s: int|
                            (slot_free_in(cur2, s) || m <= s < m + block_size(oi + 1)) <==> (
                            slot_free_in(fl0, s) || s == index) by {
                            assert((covers(b, oi, s) || covers(bd, oi, s)) <==> (m <= s < m
                                + block_size(oi + 1)));
                            assert(covers(cur[oi][pos as int], oi, s) == covers(bd, oi, s));
                        }
                    }
                    if bd < b {
                        b = bd;
                    }
                    order += 1;
                },
                None => {
                    self.free_list[order].push(b);
                    proof {
                        let cur2 = self.fls();
                        assert(cur2 =~= cur.update(oi, cur[oi].push(b)));
                        let newi: int = cur[oi].len() as int;
                        assert(cur2[oi][newi] == b);
                        assert forall|k2: int, i2: int|
                            #![trigger cur2[k2][i2]]
                            0 <= k2 < cur2.len() && 0 <= i2 < cur2[k2].len() && !(k2 == oi && i2
                                == newi) implies cur2[k2][i2] == cur[k2][i2] by {}
                        assert(blocks_in_bounds(cur2, n));
                        assert(blocks_disjoint(cur2));
                        assert(no_buddy_pairs(cur2)) by {
                            assert forall|k2: int, i1: int, i2: int|
                                #![trigger cur2[k2][i1], cur2[k2][i2]]
                                0 <= k2 < cur2.len() && 0 <= i1 < cur2[k2].len() && 0 <= i2
                                    < cur2[k2].len() implies cur2[k2][i2] != buddy_of(
                                cur2[k2][i1],
                                k2,
                            ) by {
                                if k2 == oi && i1 == newi && i2 == newi {
                                    assert(buddy_of(b, oi) != b as int);
                                } else if k2 == oi && i1 == newi {
                                    assert(cur2[k2][i2] == cur[k2][i2]);
                                    assert(cur[oi][i2] != bd as int);
                                } else if k2 == oi && i2 == newi {
                                    assert(cur2[k2][i1] == cur[k2][i1]);
                                    if b as int == buddy_of(cur[oi][i1], oi) {
                                        lemma_buddy_props(cur[oi][i1], oi, maxo);
                                        assert(cur[oi][i1] == buddy_of(b, oi));
                                        assert(cur[oi][i1] != bd as int);
                                        assert(false);
                                    }
                                } else {
                                    assert(cur2[k2][i1] == cur[k2][i1] && cur2[k2][i2]
                                        == cur[k2][i2]);
                                }
                            }
                        }
                        assert(!list_has(cur[oi], bd as int));
                        assert(merge_blocks(cur, b, oi, maxo) == cur2);
                        lemma_free_total_update(cur, oi, cur[oi].push(b));
                        assert((cur[oi].len() + 1) * block_size(oi) == cur[oi].len() * block_size(
                            oi,
                        ) + block_size(oi)) by (nonlinear_arith);
                        lemma_slot_free_push(cur, oi, b);
                    }
                    break ;
                },
            }
        }
        proof {
            let alloc0 = allocated_slots(fl0, n);
            let alloc1 = allocated_slots(self.fls(), n);
            lemma_allocated_finite(fl0, n);
            lemma_allocated_finite(self.fls(), n);
            assert(alloc1 =~= alloc0.remove(index as int));
            vstd::set::axiom_set_remove_len(alloc0, index as int);
            assert(dealloc_step(*old(self), *self, index));
        }
    }

    pub fn get_free_count(&self) -> (r: usize)
        requires
            self.used_count <= self.pool_size,
        ensures
            r == self.pool_size - self.used_count,
    {
        self.pool_size - self.used_count
    }

    pub fn get_used_count(&self) -> (r: usize)
        ensures
            r == self.used_count,
    {
        self.used_count
    }

    pub fn get_pool_size(&self) -> (r: usize)
        ensures
            r == self.pool_size,
    {
        self.pool_size
    }

    /// Puts `pcb` into slot `index`; out-of-range indices are ignored.
    pub fn store_pcb(&mut self, index: usize, pcb: PCB)
        ensures
            index < old(self).pool@.len() ==> final(self).pool@ == old(self).pool@.update(
                index as int,
                Some(pcb),
            ),
            index >= old(self).pool@.len() ==> final(self).pool@ == old(self).pool@,
            final(self).free_list == old(self).free_list,
            final(self).max_order == old(self).max_order,
            final(self).pool_size == old(self).pool_size,
            final(self).used_count == old(self).used_count,
            old(self).wf() ==> final(self).wf(),
            forall|s: int| final(self).slot_free(s) == old(self).slot_free(s),
    {
        proof {
            reveal(BuddySystem::wf);
            reveal(BuddySystem::slot_free);
        }
        if index < self.pool.len() {
            self.pool[index] = Some(pcb);
        }
    }

    /// The record stored in slot `index`, if the slot is in range and
    /// holds one.
    pub fn get_pcb(&self, index: usize) -> (r: Option<&PCB>)
        ensures
            index < self.pool@.len() && self.pool@[index as int] is Some ==> r == Some(
                &self.pool@[index as int]->0,
            ),
            index >= self.pool@.len() || self.pool@[index as int] is None ==> r is None,
    {
        if index < self.pool.len() {
            self.pool[index].as_ref()
        } else {
            None
        }
    }
}

} // verus!
