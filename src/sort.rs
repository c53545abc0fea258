//! Ordering of rectangles by their centres, and an in-place sort.
use crate::geometry::Rectangle;
use vstd::prelude::*;

verus! {

broadcast use {vstd::seq_lib::group_to_multiset_ensures, vstd::multiset::group_multiset_axioms};

/// Twice the x-coordinate of the centre.
pub open spec fn cx(r: Rectangle) -> int {
    r.x_min + r.x_max
}

/// Twice the y-coordinate of the centre.
pub open spec fn cy(r: Rectangle) -> int {
    r.y_min + r.y_max
}

/// `a` may come before `b`: by centre-x then centre-y when `by_x`, else by centre-y.
pub open spec fn precedes(a: Rectangle, b: Rectangle, by_x: bool) -> bool {
    if by_x {
        cx(a) < cx(b) || (cx(a) == cx(b) && cy(a) <= cy(b))
    } else {
        cy(a) <= cy(b)
    }
}

/// `s` is ordered by `precedes`.
pub open spec fn sorted(s: Seq<Rectangle>, by_x: bool) -> bool {
    forall|a: int, b: int| 0 <= a < b < s.len() ==> precedes(#[trigger] s[a], #[trigger] s[b], by_x)
}

/// Whether `a` may come before `b` (see `precedes`).
pub fn in_order(a: &Rectangle, b: &Rectangle, by_x: bool) -> (r: bool)
    ensures
        r == precedes(*a, *b, by_x),
{
    let ax = a.x_min as i128 + a.x_max as i128;
    let bx = b.x_min as i128 + b.x_max as i128;
    let ay = a.y_min as i128 + a.y_max as i128;
    let by = b.y_min as i128 + b.y_max as i128;
    if by_x {
        ax < bx || (ax == bx && ay <= by)
    } else {
        ay <= by
    }
}

/// Exchanging two entries keeps the multiset of a sequence.
proof fn lemma_swap_multiset(s: Seq<Rectangle>, i: int, j: int)
    requires
        0 <= i < s.len(),
        0 <= j < s.len(),
    ensures
        s.update(i, s[j]).update(j, s[i]).to_multiset() =~= s.to_multiset(),
{
    let t = s.update(i, s[j]);
    assert(t[j] == s[j]);
}

/// Sorts `v` by `precedes`, as a permutation of its entries.
pub fn sort_rects(v: &mut Vec<Rectangle>, by_x: bool)
    ensures
        final(v)@.to_multiset() == old(v)@.to_multiset(),
        final(v)@.len() == old(v)@.len(),
        sorted(final(v)@, by_x),
{
    let n = v.len();
    if n == 0 {
        return;
    }
    let mut i: usize = 1;
    while i < n
        invariant
            1 <= i <= n,
            n == v@.len(),
            v@.to_multiset() == old(v)@.to_multiset(),
            forall|a: int, b: int| 0 <= a < b < i ==> precedes(#[trigger] v@[a], #[trigger] v@[b], by_x),
        decreases n - i,
    {
        let mut j: usize = i;
        while j > 0 && !in_order(&v[j - 1], &v[j], by_x)
            invariant
                0 <= j <= i < n,
                n == v@.len(),
                v@.to_multiset() == old(v)@.to_multiset(),
                forall|a: int, b: int|
                    0 <= a < b <= i && b != j ==> precedes(#[trigger] v@[a], #[trigger] v@[b], by_x),
                forall|b: int| j < b <= i ==> precedes(v@[j as int], #[trigger] v@[b], by_x),
            decreases j,
        {
            let lo = v[j - 1];
            let hi = v[j];
            proof {
                lemma_swap_multiset(v@, j - 1, j as int);
            }
            v.set(j - 1, hi);
            v.set(j, lo);
            j = j - 1;
        }
        i = i + 1;
    }
}

} // verus!
