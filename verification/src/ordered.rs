//! Sorting by rank.
//!
//! A [`Ranked`] item has a rank in a total order. [`sort_dedup`] puts items in
//! the order of their ranks and keeps, of the items with one rank, the first.

use vstd::prelude::*;

verus! {

broadcast use vstd::seq_lib::group_seq_properties;

/// An item with a rank in a total order.
pub trait Ranked: Sized {
    /// What the order compares.
    type Rank;

    /// The rank of the item.
    spec fn rank(&self) -> Self::Rank;

    /// The ranks on which the order is total.
    spec fn rank_ok(r: Self::Rank) -> bool;

    /// Rank `a` comes strictly before rank `b`.
    spec fn rank_lt(a: Self::Rank, b: Self::Rank) -> bool;

    /// The order is total.
    proof fn lemma_rank_order(a: Self::Rank, b: Self::Rank, c: Self::Rank)
        requires
            Self::rank_ok(a),
            Self::rank_ok(b),
            Self::rank_ok(c),
        ensures
            Self::rank_lt(a, b) || a == b || Self::rank_lt(b, a),
            !(Self::rank_lt(a, b) && Self::rank_lt(b, a)),
            !Self::rank_lt(a, a),
            Self::rank_lt(a, b) && Self::rank_lt(b, c) ==> Self::rank_lt(a, c),
    ;

    /// Whether this item's rank comes strictly before the other's.
    fn ranks_before(&self, other: &Self) -> (r: bool)
        requires
            Self::rank_ok(self.rank()),
            Self::rank_ok(other.rank()),
        ensures
            r == Self::rank_lt(self.rank(), other.rank()),
    ;
}

/// All items of `s` have ranks on which the order is total.
pub open spec fn all_ranked<T: Ranked>(s: Seq<T>) -> bool {
    forall|i: int| 0 <= i < s.len() ==> T::rank_ok((#[trigger] s[i]).rank())
}

/// `s` is in strictly ascending order of ranks.
pub open spec fn ascending<T: Ranked>(s: Seq<T>) -> bool {
    forall|i: int, j: int|
        0 <= i < j < s.len() ==> T::rank_lt((#[trigger] s[i]).rank(), (#[trigger] s[j]).rank())
}

/// The first item of `s` that has rank `k`.
pub open spec fn first_ranked<T: Ranked>(s: Seq<T>, k: T::Rank) -> Option<T>
    decreases s.len(),
{
    if s.len() == 0 {
        None
    } else if s[0].rank() == k {
        Some(s[0])
    } else {
        first_ranked(s.skip(1), k)
    }
}

/// `r` holds, in ascending order and once for each rank in `s`, the first
/// item of `s` with that rank.
pub open spec fn is_sort_dedup<T: Ranked>(s: Seq<T>, r: Seq<T>) -> bool {
    &&& ascending(r)
    &&& all_ranked(r)
    &&& forall|k: T::Rank| #[trigger] first_ranked(r, k) == first_ranked(s, k)
}

/// The first item of a concatenation is the first of the front part, or of
/// the back part where the front has none.
pub proof fn lemma_first_ranked_concat<T: Ranked>(a: Seq<T>, b: Seq<T>, k: T::Rank)
    ensures
        first_ranked(a + b, k) == if first_ranked(a, k) is Some {
            first_ranked(a, k)
        } else {
            first_ranked(b, k)
        },
    decreases a.len(),
{
    if a.len() == 0 {
        assert(a + b =~= b);
    } else {
        assert((a + b).skip(1) =~= a.skip(1) + b);
        lemma_first_ranked_concat(a.skip(1), b, k);
    }
}

/// A first item of rank `k` is in the sequence; if there is none, no item has
/// rank `k`.
pub proof fn lemma_first_ranked_found<T: Ranked>(s: Seq<T>, k: T::Rank)
    ensures
        match first_ranked(s, k) {
            Some(x) => x.rank() == k && s.contains(x),
            None => forall|i: int| 0 <= i < s.len() ==> (#[trigger] s[i]).rank() != k,
        },
    decreases s.len(),
{
    if s.len() > 0 && s[0].rank() == k {
        assert(s.contains(s[0]));
    } else if s.len() > 0 {
        lemma_first_ranked_found(s.skip(1), k);
        match first_ranked(s.skip(1), k) {
            Some(x) => {
                let i = choose|i: int| 0 <= i < s.skip(1).len() && s.skip(1)[i] == x;
                assert(s[i + 1] == x);
            },
            None => {
                assert forall|i: int| 0 <= i < s.len() implies (#[trigger] s[i]).rank() != k by {
                    if i > 0 {
                        assert(s.skip(1)[i - 1] == s[i]);
                    }
                }
            },
        }
    }
}

/// The items of `v` from the last to the first.
fn reversed<T>(v: Vec<T>) -> (r: Vec<T>)
    ensures
        r@ == v@.reverse(),
{
    let ghost v0 = v@;
    let mut v = v;
    let mut r: Vec<T> = Vec::new();
    while v.len() > 0
        invariant
            v@.len() + r@.len() == v0.len(),
            v@ == v0.take(v@.len() as int),
            forall|i: int| 0 <= i < r@.len() ==> r@[i] == v0[v0.len() - 1 - i],
        decreases v@.len(),
    {
        let ghost before = v@;
        if let Some(x) = v.pop() {
            r.push(x);
        }
        assert(v@ =~= v0.take(v@.len() as int));
    }
    assert(r@ =~= v0.reverse());
    r
}

/// All items of `p` rank before all items of `q`.
pub open spec fn below<T: Ranked>(p: Seq<T>, q: Seq<T>) -> bool {
    forall|i: int, j: int|
        0 <= i < p.len() && 0 <= j < q.len() ==> T::rank_lt(
            (#[trigger] p[i]).rank(),
            (#[trigger] q[j]).rank(),
        )
}

/// One step of a merge: which of the two smallest items goes next, if both
/// runs have one. Equal ranks take the left item and drop the right one.
proof fn lemma_merge_step<T: Ranked>(
    out: Seq<T>,
    a: Seq<T>,
    b: Seq<T>,
    take_left: bool,
    x: T,
    a1: Seq<T>,
    b1: Seq<T>,
)
    requires
        all_ranked(out),
        all_ranked(a),
        all_ranked(b),
        ascending(out),
        ascending(a),
        ascending(b),
        below(out, a),
        below(out, b),
        take_left ==> a.len() > 0 && (b.len() > 0 ==> T::rank_lt(a[0].rank(), b[0].rank())),
        !take_left ==> b.len() > 0 && (a.len() > 0 ==> T::rank_lt(b[0].rank(), a[0].rank())),
        take_left ==> x == a[0] && a1 == a.skip(1) && b1 == b,
        !take_left ==> x == b[0] && a1 == a && b1 == b.skip(1),
    ensures
        ascending(out.push(x)),
        all_ranked(out.push(x)),
        ascending(a1),
        ascending(b1),
        all_ranked(a1),
        all_ranked(b1),
        below(out.push(x), a1),
        below(out.push(x), b1),
        forall|k: T::Rank|
            #[trigger] first_ranked(out.push(x) + a1 + b1, k) == first_ranked(out + a + b, k),
{
    let o1 = out.push(x);
    assert(forall|i: int| 0 <= i < out.len() ==> o1[i] == out[i]);
    assert(o1[out.len() as int] == x);
    assert forall|j: int| 0 <= j < a1.len() implies T::rank_lt(x.rank(), (#[trigger] a1[j]).rank())
        && T::rank_ok(a1[j].rank()) by {
        if take_left {
            assert(a1[j] == a[j + 1]);
        } else {
            T::lemma_rank_order(x.rank(), a[0].rank(), a[j].rank());
            assert(j == 0 || T::rank_lt(a[0].rank(), a[j].rank()));
        }
    }
    assert forall|j: int| 0 <= j < b1.len() implies T::rank_lt(x.rank(), (#[trigger] b1[j]).rank())
        && T::rank_ok(b1[j].rank()) by {
        if !take_left {
            assert(b1[j] == b[j + 1]);
        } else {
            T::lemma_rank_order(x.rank(), b[0].rank(), b[j].rank());
            assert(j == 0 || T::rank_lt(b[0].rank(), b[j].rank()));
        }
    }
    assert forall|i: int, j: int| 0 <= i < o1.len() && 0 <= j < a1.len() implies T::rank_lt(
        (#[trigger] o1[i]).rank(),
        (#[trigger] a1[j]).rank(),
    ) by {
        if i < out.len() {
            let j0 = if take_left { j + 1 } else { j };
            assert(a1[j] == a[j0]);
            assert(T::rank_lt(out[i].rank(), a[j0].rank()));
        }
    }
    assert forall|i: int, j: int| 0 <= i < o1.len() && 0 <= j < b1.len() implies T::rank_lt(
        (#[trigger] o1[i]).rank(),
        (#[trigger] b1[j]).rank(),
    ) by {
        if i < out.len() {
            let j0 = if take_left { j } else { j + 1 };
            assert(b1[j] == b[j0]);
            assert(T::rank_lt(out[i].rank(), b[j0].rank()));
        }
    }
    assert forall|i: int, j: int| 0 <= i < j < a1.len() implies T::rank_lt(
        (#[trigger] a1[i]).rank(),
        (#[trigger] a1[j]).rank(),
    ) by {
        if take_left {
            assert(a1[i] == a[i + 1] && a1[j] == a[j + 1]);
        }
    }
    assert forall|i: int, j: int| 0 <= i < j < b1.len() implies T::rank_lt(
        (#[trigger] b1[i]).rank(),
        (#[trigger] b1[j]).rank(),
    ) by {
        if !take_left {
            assert(b1[i] == b[i + 1] && b1[j] == b[j + 1]);
        }
    }
    assert forall|i: int, j: int| 0 <= i < j < o1.len() implies T::rank_lt(
        (#[trigger] o1[i]).rank(),
        (#[trigger] o1[j]).rank(),
    ) by {
        if j == out.len() {
            if take_left {
                assert(T::rank_lt(out[i].rank(), a[0].rank()));
            } else {
                assert(T::rank_lt(out[i].rank(), b[0].rank()));
            }
        }
    }
    assert forall|k: T::Rank| #[trigger] first_ranked(o1 + a1 + b1, k) == first_ranked(
        out + a + b,
        k,
    ) by {
        lemma_first_ranked_concat(o1 + a1, b1, k);
        lemma_first_ranked_concat(o1, a1, k);
        lemma_first_ranked_concat(out, seq![x], k);
        assert(o1 =~= out + seq![x]);
        lemma_first_ranked_concat(out + a, b, k);
        lemma_first_ranked_concat(out, a, k);
        lemma_first_ranked_found(a1, k);
        reveal_with_fuel(first_ranked, 2);
        if take_left {
            assert(a =~= seq![x] + a1);
            lemma_first_ranked_concat(seq![x], a1, k);
        } else {
            assert(b =~= seq![x] + b1);
            lemma_first_ranked_concat(seq![x], b1, k);
            if k == x.rank() {
                match first_ranked(a, k) {
                    Some(y) => {
                        let j = choose|j: int| 0 <= j < a1.len() && a1[j] == y;
                        assert(T::rank_lt(x.rank(), a1[j].rank()));
                        T::lemma_rank_order(x.rank(), x.rank(), x.rank());
                    },
                    None => {},
                }
            }
        }
    }
}

/// Dropping an item whose rank an earlier one has changes no first item.
proof fn lemma_drop_shadowed<T: Ranked>(p: Seq<T>, b: Seq<T>, i: int)
    requires
        b.len() > 0,
        0 <= i < p.len(),
        p[i].rank() == b[0].rank(),
    ensures
        forall|k: T::Rank| #[trigger] first_ranked(p + b.skip(1), k) == first_ranked(p + b, k),
{
    assert forall|k: T::Rank| #[trigger] first_ranked(p + b.skip(1), k) == first_ranked(
        p + b,
        k,
    ) by {
        lemma_first_ranked_concat(p, b, k);
        lemma_first_ranked_concat(p, b.skip(1), k);
        lemma_first_ranked_found(p, k);
    }
}

/// Merge two ascending runs, given from the back to the front. Where both
/// have an item of one rank the left one stays.
fn merge_runs<T: Ranked>(left_rev: Vec<T>, right_rev: Vec<T>, Ghost(a0): Ghost<Seq<T>>, Ghost(
    b0,
): Ghost<Seq<T>>) -> (out: Vec<T>)
    requires
        left_rev@ == a0.reverse(),
        right_rev@ == b0.reverse(),
        all_ranked(a0),
        all_ranked(b0),
        ascending(a0),
        ascending(b0),
    ensures
        is_sort_dedup(a0 + b0, out@),
{
    let mut left = left_rev;
    let mut right = right_rev;
    let mut out: Vec<T> = Vec::new();
    assert(left@.reverse() =~= a0);
    assert(right@.reverse() =~= b0);
    assert(out@ + a0 + b0 =~= a0 + b0);
    while left.len() > 0 || right.len() > 0
        invariant
            all_ranked(out@),
            ascending(out@),
            all_ranked(left@.reverse()),
            all_ranked(right@.reverse()),
            ascending(left@.reverse()),
            ascending(right@.reverse()),
            below(out@, left@.reverse()),
            below(out@, right@.reverse()),
            forall|k: T::Rank|
                #[trigger] first_ranked(out@ + left@.reverse() + right@.reverse(), k)
                    == first_ranked(a0 + b0, k),
        decreases left@.len() + right@.len(),
    {
        let ghost a = left@.reverse();
        let ghost b = right@.reverse();
        let ghost o = out@;
        let nl: usize = left.len();
        let nr: usize = right.len();
        proof {
            if nl > 0 {
                assert(a[0] == left@[nl - 1]);
            }
            if nr > 0 {
                assert(b[0] == right@[nr - 1]);
            }
        }
        let take_left: bool = if nr == 0 {
            true
        } else if nl == 0 {
            false
        } else if left[nl - 1].ranks_before(&right[nr - 1]) {
            true
        } else if right[nr - 1].ranks_before(&left[nl - 1]) {
            false
        } else {
            proof {
                T::lemma_rank_order(a[0].rank(), b[0].rank(), b[0].rank());
                let p = o + a;
                assert(p[o.len() as int] == a[0]);
                lemma_drop_shadowed(p, b, o.len() as int);
                assert(forall|k: T::Rank|
                    #[trigger] first_ranked(o + a + b.skip(1), k) == first_ranked(o + a + b, k));
                assert forall|i: int, j: int| 0 <= i < j < b.skip(1).len() implies T::rank_lt(
                    (#[trigger] b.skip(1)[i]).rank(),
                    (#[trigger] b.skip(1)[j]).rank(),
                ) by {
                    assert(b.skip(1)[i] == b[i + 1] && b.skip(1)[j] == b[j + 1]);
                }
                assert forall|j: int| 0 <= j < b.skip(1).len() implies T::rank_ok(
                    (#[trigger] b.skip(1)[j]).rank(),
                ) by {
                    assert(b.skip(1)[j] == b[j + 1]);
                }
                assert forall|i: int, j: int|
                    0 <= i < o.len() && 0 <= j < b.skip(1).len() implies T::rank_lt(
                    (#[trigger] o[i]).rank(),
                    (#[trigger] b.skip(1)[j]).rank(),
                ) by {
                    assert(b.skip(1)[j] == b[j + 1]);
                }
            }
            let _ = right.pop();
            assert(right@.reverse() =~= b.skip(1));
            proof {
                if right@.len() > 0 {
                    assert(b.skip(1)[0] == b[1]);
                    assert(T::rank_lt(b[0].rank(), b[1].rank()));
                }
            }
            true
        };
        let ghost b2 = right@.reverse();
        proof {
            assert(forall|k: T::Rank|
                #[trigger] first_ranked(o + a + b2, k) == first_ranked(a0 + b0, k));
            if take_left {
                lemma_merge_step(o, a, b2, true, a[0], a.skip(1), b2);
            } else {
                lemma_merge_step(o, a, b2, false, b2[0], a, b2.skip(1));
            }
        }
        if take_left {
            if let Some(x) = left.pop() {
                assert(x == a[0]);
                out.push(x);
            }
            assert(left@.reverse() =~= a.skip(1));
        } else {
            if let Some(x) = right.pop() {
                assert(x == b2[0]);
                out.push(x);
            }
            assert(right@.reverse() =~= b2.skip(1));
        }
    }
    assert(out@ + left@.reverse() + right@.reverse() =~= out@);
    out
}

/// Put items in the order of their ranks, keeping the first of each rank.
pub fn sort_dedup<T: Ranked>(v: Vec<T>) -> (r: Vec<T>)
    requires
        all_ranked(v@),
    ensures
        is_sort_dedup(v@, r@),
    decreases v@.len(),
{
    let n: usize = v.len();
    if n <= 1 {
        return v;
    }
    let ghost v0 = v@;
    let mut left = v;
    let right = left.split_off(n / 2);
    let ghost l0 = left@;
    let ghost r0 = right@;
    assert(l0 + r0 =~= v0);
    assert(all_ranked(l0)) by {
        assert forall|i: int| 0 <= i < l0.len() implies T::rank_ok((#[trigger] l0[i]).rank()) by {
            assert(l0[i] == v0[i]);
        }
    }
    assert(all_ranked(r0)) by {
        assert forall|i: int| 0 <= i < r0.len() implies T::rank_ok((#[trigger] r0[i]).rank()) by {
            assert(r0[i] == v0[n / 2 + i]);
        }
    }
    let left = sort_dedup(left);
    let right = sort_dedup(right);
    let ghost a = left@;
    let ghost b = right@;
    let left_rev = reversed(left);
    let right_rev = reversed(right);
    let out = merge_runs(left_rev, right_rev, Ghost(a), Ghost(b));
    proof {
        assert forall|k: T::Rank| #[trigger] first_ranked(out@, k) == first_ranked(v0, k) by {
            lemma_first_ranked_concat(a, b, k);
            lemma_first_ranked_concat(l0, r0, k);
            assert(first_ranked(a, k) == first_ranked(l0, k));
            assert(first_ranked(b, k) == first_ranked(r0, k));
            assert(first_ranked(out@, k) == first_ranked(a + b, k));
        }
    }
    out
}

} // verus!
