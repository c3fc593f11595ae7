//! Picking numbers from a range.

use vstd::prelude::*;

verus! {

/// The numbers below `n` that `p` accepts, in ascending order.
pub open spec fn select(n: nat, p: spec_fn(int) -> bool) -> Seq<u32>
    decreases n,
{
    if n == 0 {
        Seq::empty()
    } else if p(n - 1) {
        select((n - 1) as nat, p).push((n - 1) as u32)
    } else {
        select((n - 1) as nat, p)
    }
}

/// What [`select`] picks: the accepted numbers, each once, ascending.
pub proof fn select_picks(n: nat, p: spec_fn(int) -> bool)
    requires
        n <= u32::MAX + 1,
    ensures
        select(n, p).len() <= n,
        forall|k: int|
            0 <= k < select(n, p).len() ==> (#[trigger] select(n, p)[k]) < n && p(
                select(n, p)[k] as int,
            ),
        forall|i: int|
            0 <= i < n && #[trigger] p(i) ==> select(n, p).contains(i as u32),
        forall|k: int, m: int|
            0 <= k < m < select(n, p).len() ==> #[trigger] select(n, p)[k] < #[trigger] select(n, p)[m],
    decreases n,
{
    if n > 0 {
        let shorter = select((n - 1) as nat, p);
        select_picks((n - 1) as nat, p);
        let all = select(n, p);
        assert forall|i: int| 0 <= i < n && #[trigger] p(i) implies all.contains(i as u32) by {
            if i < n - 1 {
                assert(shorter.contains(i as u32));
                let k = choose|k: int| 0 <= k < shorter.len() && shorter[k] == i as u32;
                assert(all[k] == i as u32);
            } else {
                assert(all[all.len() - 1] == i as u32);
            }
        }
    }
}

/// [`select`] depends on what the predicate says of the numbers below `n`.
pub proof fn select_agrees(n: nat, p: spec_fn(int) -> bool, q: spec_fn(int) -> bool)
    requires
        forall|i: int| 0 <= i < n ==> #[trigger] p(i) == q(i),
    ensures
        select(n, p) == select(n, q),
    decreases n,
{
    if n > 0 {
        select_agrees((n - 1) as nat, p, q);
    }
}

/// The sum of `f` over the numbers below `n` that `p` accepts.
pub open spec fn sum_where(n: nat, p: spec_fn(int) -> bool, f: spec_fn(int) -> nat) -> nat
    decreases n,
{
    if n == 0 {
        0
    } else {
        sum_where((n - 1) as nat, p, f) + if p(n - 1) {
            f(n - 1)
        } else {
            0
        }
    }
}

/// Whether the numbers ascend.
pub open spec fn ascends(s: Seq<u32>) -> bool {
    forall|i: int, j: int| 0 <= i < j < s.len() ==> #[trigger] s[i] < #[trigger] s[j]
}

/// Two ascending lists with the same members are the same.
pub proof fn ascending_lists_agree(a: Seq<u32>, b: Seq<u32>)
    requires
        ascends(a),
        ascends(b),
        forall|x: u32| #[trigger] a.contains(x) == b.contains(x),
    ensures
        a == b,
    decreases a.len(),
{
    if a.len() == 0 {
        if b.len() > 0 {
            assert(b.contains(b[0]));
            assert(a.contains(b[0]));
        }
        assert(a =~= b);
    } else {
        assert(a.contains(a[a.len() - 1]));
        assert(b.contains(a[a.len() - 1]));
        let x = a.last();
        let y = b.last();
        let i = choose|i: int| 0 <= i < b.len() && b[i] == x;
        assert(b.contains(b[b.len() - 1]));
        assert(a.contains(y));
        let j = choose|j: int| 0 <= j < a.len() && a[j] == y;
        assert(x == y);
        let a1 = a.drop_last();
        let b1 = b.drop_last();
        assert forall|z: u32| #[trigger] a1.contains(z) == b1.contains(z) by {
            if a1.contains(z) {
                let k = choose|k: int| 0 <= k < a1.len() && a1[k] == z;
                assert(a[k] == z);
                assert(a.contains(z));
                let m = choose|m: int| 0 <= m < b.len() && b[m] == z;
                assert(z < x);
                assert(b1[m] == z);
            }
            if b1.contains(z) {
                let k = choose|k: int| 0 <= k < b1.len() && b1[k] == z;
                assert(b[k] == z);
                assert(b.contains(z));
                assert(a.contains(z));
                let m = choose|m: int| 0 <= m < a.len() && a[m] == z;
                assert(z < y);
                assert(a1[m] == z);
            }
        }
        ascending_lists_agree(a1, b1);
        assert(a =~= a1.push(x));
        assert(b =~= b1.push(y));
    }
}

} // verus!
