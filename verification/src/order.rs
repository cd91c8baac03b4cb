//! A stable merge sort of positions.

use vstd::prelude::*;

verus! {

/// Values with a total order, up to ties.
pub trait Ranked: Sized {
    /// Whether `self` may stand before `other`.
    spec fn le(self, other: Self) -> bool;

    /// Of two values at least one may stand before the other.
    proof fn le_total(a: Self, b: Self)
        ensures
            a.le(b) || b.le(a),
    ;

    /// The order is transitive.
    proof fn le_transitive(a: Self, b: Self, c: Self)
        requires
            a.le(b),
            b.le(c),
        ensures
            a.le(c),
    ;

    /// Whether `self` may stand before `other`.
    fn may_precede(&self, other: &Self) -> (r: bool)
        ensures
            r == self.le(*other),
    ;
}

/// Whether position `i` of `keys` sorts before position `j`: by key, and by position where the
/// keys tie.
pub open spec fn sorts_before<K: Ranked>(keys: Seq<K>, i: int, j: int) -> bool {
    keys[i].le(keys[j]) && (keys[j].le(keys[i]) ==> i < j)
}

/// Whether `order` lists the positions `lo..hi` of `keys` in their stable sorted order.
pub open spec fn is_sorted_order<K: Ranked>(
    keys: Seq<K>,
    lo: int,
    hi: int,
    order: Seq<usize>,
) -> bool {
    &&& order.len() == hi - lo
    &&& forall|a: int| 0 <= a < order.len() ==> lo <= #[trigger] order[a] < hi
    &&& forall|i: int| lo <= i < hi ==> #[trigger] order.contains(i as usize)
    &&& forall|a: int, b: int|
        0 <= a < b < order.len() ==> sorts_before(
            keys,
            #[trigger] order[a] as int,
            #[trigger] order[b] as int,
        )
}

proof fn lemma_sorts_before_transitive<K: Ranked>(keys: Seq<K>, i: int, j: int, k: int)
    requires
        sorts_before(keys, i, j),
        sorts_before(keys, j, k),
    ensures
        sorts_before(keys, i, k),
{
    K::le_transitive(keys[i], keys[j], keys[k]);
    if keys[k].le(keys[i]) {
        K::le_transitive(keys[j], keys[k], keys[i]);
        K::le_transitive(keys[k], keys[i], keys[j]);
    }
}

/// Two sorted orders of adjacent ranges of positions, merged.
fn merge<K: Ranked>(
    keys: &Vec<K>,
    Ghost(lo): Ghost<int>,
    Ghost(mid): Ghost<int>,
    Ghost(hi): Ghost<int>,
    left: Vec<usize>,
    right: Vec<usize>,
) -> (out: Vec<usize>)
    requires
        0 <= lo <= mid <= hi <= keys@.len(),
        is_sorted_order(keys@, lo, mid, left@),
        is_sorted_order(keys@, mid, hi, right@),
    ensures
        is_sorted_order(keys@, lo, hi, out@),
{
    let mut out: Vec<usize> = Vec::new();
    let mut i: usize = 0;
    let mut j: usize = 0;
    while i < left.len() || j < right.len()
        invariant
            0 <= lo <= mid <= hi <= keys@.len(),
            is_sorted_order(keys@, lo, mid, left@),
            is_sorted_order(keys@, mid, hi, right@),
            i <= left@.len(),
            j <= right@.len(),
            out@.len() == i + j,
            forall|a: int| 0 <= a < out@.len() ==> lo <= #[trigger] out@[a] < hi,
            forall|a: int| 0 <= a < i ==> out@.contains(#[trigger] left@[a]),
            forall|b: int| 0 <= b < j ==> out@.contains(#[trigger] right@[b]),
            forall|a: int, b: int|
                0 <= a < b < out@.len() ==> sorts_before(
                    keys@,
                    #[trigger] out@[a] as int,
                    #[trigger] out@[b] as int,
                ),
            forall|a: int, b: int|
                0 <= a < out@.len() && i <= b < left@.len() ==> sorts_before(
                    keys@,
                    #[trigger] out@[a] as int,
                    #[trigger] left@[b] as int,
                ),
            forall|a: int, b: int|
                0 <= a < out@.len() && j <= b < right@.len() ==> sorts_before(
                    keys@,
                    #[trigger] out@[a] as int,
                    #[trigger] right@[b] as int,
                ),
        decreases left@.len() - i + right@.len() - j,
    {
        let ghost before = out@;
        let from_left: bool = j >= right.len() || (i < left.len()
            && keys[left[i]].may_precede(&keys[right[j]]));
        if from_left {
            let x: usize = left[i];
            proof {
                assert forall|b: int| j <= b < right@.len() implies sorts_before(
                    keys@,
                    x as int,
                    #[trigger] right@[b] as int,
                ) by {
                    assert(sorts_before(keys@, x as int, right@[j as int] as int));
                    if b > j {
                        lemma_sorts_before_transitive(
                            keys@,
                            x as int,
                            right@[j as int] as int,
                            right@[b] as int,
                        );
                    }
                }
            }
            out.push(x);
            i += 1;
        } else {
            let x: usize = right[j];
            proof {
                assert forall|b: int| i <= b < left@.len() implies sorts_before(
                    keys@,
                    x as int,
                    #[trigger] left@[b] as int,
                ) by {
                    K::le_total(keys@[x as int], keys@[left@[i as int] as int]);
                    assert(sorts_before(keys@, x as int, left@[i as int] as int));
                    if b > i {
                        lemma_sorts_before_transitive(
                            keys@,
                            x as int,
                            left@[i as int] as int,
                            left@[b] as int,
                        );
                    }
                }
            }
            out.push(x);
            j += 1;
        }
        proof {
            assert forall|a: int| 0 <= a < i implies out@.contains(#[trigger] left@[a]) by {
                if before.contains(left@[a]) {
                    let k = choose|k: int| 0 <= k < before.len() && before[k] == left@[a];
                    assert(out@[k] == left@[a]);
                } else {
                    assert(out@[before.len() as int] == left@[a]);
                }
            }
            assert forall|b: int| 0 <= b < j implies out@.contains(#[trigger] right@[b]) by {
                if before.contains(right@[b]) {
                    let k = choose|k: int| 0 <= k < before.len() && before[k] == right@[b];
                    assert(out@[k] == right@[b]);
                } else {
                    assert(out@[before.len() as int] == right@[b]);
                }
            }
        }
    }
    assert forall|p: int| lo <= p < hi implies #[trigger] out@.contains(p as usize) by {
        if p < mid {
            assert(left@.contains(p as usize));
            let a = choose|a: int| 0 <= a < left@.len() && left@[a] == p as usize;
            assert(out@.contains(left@[a]));
        } else {
            assert(right@.contains(p as usize));
            let b = choose|b: int| 0 <= b < right@.len() && right@[b] == p as usize;
            assert(out@.contains(right@[b]));
        }
    }
    out
}

/// The positions `lo..hi` of `keys` in sorted order.
fn sorted_range<K: Ranked>(keys: &Vec<K>, lo: usize, hi: usize) -> (order: Vec<usize>)
    requires
        lo <= hi <= keys@.len(),
    ensures
        is_sorted_order(keys@, lo as int, hi as int, order@),
    decreases hi - lo,
{
    if hi - lo <= 1 {
        let mut order: Vec<usize> = Vec::new();
        if lo < hi {
            order.push(lo);
            assert(order@[0] == lo);
        }
        order
    } else {
        let mid: usize = lo + (hi - lo) / 2;
        let left = sorted_range(keys, lo, mid);
        let right = sorted_range(keys, mid, hi);
        merge(keys, Ghost(lo as int), Ghost(mid as int), Ghost(hi as int), left, right)
    }
}

/// The positions of `keys` in sorted order; where keys tie, in their own order.
pub fn sorted_order<K: Ranked>(keys: &Vec<K>) -> (order: Vec<usize>)
    ensures
        is_sorted_order(keys@, 0, keys@.len() as int, order@),
{
    sorted_range(keys, 0, keys.len())
}

/// There is one sorted order: two lists that are both sorted orders of the same positions are
/// the same list.
pub proof fn sorted_order_is_unique<K: Ranked>(
    keys: Seq<K>,
    lo: int,
    hi: int,
    a: Seq<usize>,
    b: Seq<usize>,
)
    requires
        0 <= lo <= hi <= keys.len(),
        hi <= usize::MAX,
        is_sorted_order(keys, lo, hi, a),
        is_sorted_order(keys, lo, hi, b),
    ensures
        a == b,
{
    assert forall|i: int| 0 <= i < a.len() implies #[trigger] a[i] == b[i] by {
        lemma_sorted_orders_agree(keys, lo, hi, a, b, i);
    }
}

proof fn lemma_sorted_orders_agree<K: Ranked>(
    keys: Seq<K>,
    lo: int,
    hi: int,
    a: Seq<usize>,
    b: Seq<usize>,
    i: int,
)
    requires
        0 <= lo <= hi <= keys.len(),
        hi <= usize::MAX,
        is_sorted_order(keys, lo, hi, a),
        is_sorted_order(keys, lo, hi, b),
        0 <= i < a.len(),
    ensures
        forall|k: int| 0 <= k <= i ==> #[trigger] a[k] == b[k],
    decreases i,
{
    if i > 0 {
        lemma_sorted_orders_agree(keys, lo, hi, a, b, i - 1);
    }
    if a[i] != b[i] {
        assert(b.contains(a[i] as int as usize));
        let x = choose|x: int| 0 <= x < b.len() && b[x] == a[i];
        assert(a.contains(b[i] as int as usize));
        let y = choose|y: int| 0 <= y < a.len() && a[y] == b[i];
        if x < i {
            assert(a[x] == b[x]);
            assert(sorts_before(keys, a[x] as int, a[i] as int));
        }
        if y < i {
            assert(a[y] == b[y]);
            assert(sorts_before(keys, b[y] as int, b[i] as int));
        }
        assert(sorts_before(keys, b[i] as int, b[x] as int));
        assert(sorts_before(keys, a[i] as int, a[y] as int));
    }
}

/// A key that sorts numbers from the largest to the smallest.
pub struct Descending(pub usize);

impl Ranked for Descending {
    open spec fn le(self, other: Self) -> bool {
        self.0 >= other.0
    }

    proof fn le_total(a: Self, b: Self) {
    }

    proof fn le_transitive(a: Self, b: Self, c: Self) {
    }

    fn may_precede(&self, other: &Self) -> (r: bool) {
        self.0 >= other.0
    }
}

/// A key that sorts depths from the largest to the smallest.
pub struct DeepestFirst(pub i32);

impl Ranked for DeepestFirst {
    open spec fn le(self, other: Self) -> bool {
        self.0 >= other.0
    }

    proof fn le_total(a: Self, b: Self) {
    }

    proof fn le_transitive(a: Self, b: Self, c: Self) {
    }

    fn may_precede(&self, other: &Self) -> (r: bool) {
        self.0 >= other.0
    }
}

/// A key that sorts numbers from the smallest to the largest.
pub struct Ascending(pub i32);

impl Ranked for Ascending {
    open spec fn le(self, other: Self) -> bool {
        self.0 <= other.0
    }

    proof fn le_total(a: Self, b: Self) {
    }

    proof fn le_transitive(a: Self, b: Self, c: Self) {
    }

    fn may_precede(&self, other: &Self) -> (r: bool) {
        self.0 <= other.0
    }
}

} // verus!
