//! Orders: text by its characters, and identifiers by whatever ranks them.

use vstd::prelude::*;

use crate::text::chars_of;

verus! {

// ---------------------------------------------------------------------------------------------
// Text
// ---------------------------------------------------------------------------------------------

/// Whether `a` stands strictly before `b` when texts are ordered by their characters' code points.
pub open spec fn text_before(a: Seq<char>, b: Seq<char>) -> bool
    decreases a.len(),
{
    if b.len() == 0 {
        false
    } else if a.len() == 0 {
        true
    } else if a[0] != b[0] {
        a[0] < b[0]
    } else {
        text_before(a.drop_first(), b.drop_first())
    }
}

/// No text stands before itself, and of two different texts one stands before the other.
pub proof fn text_order_is_total(a: Seq<char>, b: Seq<char>)
    ensures
        text_before(a, b) ==> a != b && !text_before(b, a),
        a != b ==> text_before(a, b) || text_before(b, a),
        a == b ==> !text_before(a, b),
    decreases a.len(),
{
    if a.len() == 0 && b.len() == 0 {
        assert(a =~= b);
    } else if a.len() > 0 && b.len() > 0 && a[0] == b[0] {
        text_order_is_total(a.drop_first(), b.drop_first());
        if a.drop_first() == b.drop_first() {
            assert(a =~= seq![a[0]] + a.drop_first());
            assert(b =~= seq![b[0]] + b.drop_first());
        }
    }
}

/// The order of texts is transitive.
pub proof fn text_order_is_transitive(a: Seq<char>, b: Seq<char>, c: Seq<char>)
    requires
        text_before(a, b),
        text_before(b, c),
    ensures
        text_before(a, c),
    decreases a.len(),
{
    if a.len() > 0 && b.len() > 0 && c.len() > 0 && a[0] == b[0] && b[0] == c[0] {
        text_order_is_transitive(a.drop_first(), b.drop_first(), c.drop_first());
    }
}

/// Whether `a` stands strictly before `b` when texts are ordered by their characters' code points.
pub fn is_text_before(a: &str, b: &str) -> (r: bool)
    ensures
        r == text_before(a@, b@),
{
    let left = chars_of(a);
    let right = chars_of(b);
    let mut i: usize = 0;
    assert(left@.skip(0) =~= a@);
    assert(right@.skip(0) =~= b@);
    while i < left.len() && i < right.len()
        invariant
            left@ == a@,
            right@ == b@,
            i <= left@.len(),
            i <= right@.len(),
            text_before(a@, b@) == text_before(left@.skip(i as int), right@.skip(i as int)),
        decreases left@.len() - i,
    {
        assert(left@.skip(i as int)[0] == left@[i as int]);
        assert(right@.skip(i as int)[0] == right@[i as int]);
        if left[i] != right[i] {
            return left[i] < right[i];
        }
        assert(left@.skip(i as int).drop_first() =~= left@.skip(i + 1));
        assert(right@.skip(i as int).drop_first() =~= right@.skip(i + 1));
        i += 1;
    }
    i < right.len()
}

// ---------------------------------------------------------------------------------------------
// Identifiers
// ---------------------------------------------------------------------------------------------

/// A total order on the identifiers that it knows.
pub trait Ranking {
    /// The identifiers that have a rank.
    spec fn knows(&self, a: u32) -> bool;

    /// Whether `a` stands before `b`, or ties with it.
    spec fn at_most(&self, a: u32, b: u32) -> bool;

    /// Of two identifiers one stands before the other, or they tie.
    proof fn total(&self, a: u32, b: u32)
        requires
            self.knows(a),
            self.knows(b),
        ensures
            self.at_most(a, b) || self.at_most(b, a),
    ;

    /// The order is transitive.
    proof fn transitive(&self, a: u32, b: u32, c: u32)
        requires
            self.knows(a),
            self.knows(b),
            self.knows(c),
            self.at_most(a, b),
            self.at_most(b, c),
        ensures
            self.at_most(a, c),
    ;

    /// Whether `a` stands before `b`, or ties with it.
    fn in_order(&self, a: u32, b: u32) -> (r: bool)
        requires
            self.knows(a),
            self.knows(b),
        ensures
            r == self.at_most(a, b),
    ;
}

/// Whether the ranking knows every identifier of `s`.
pub open spec fn all_known<R: Ranking>(r: &R, s: Seq<u32>) -> bool {
    forall|i: int| 0 <= i < s.len() ==> r.knows(#[trigger] s[i])
}

/// Whether no identifier of `s` stands before an earlier one.
pub open spec fn ranked<R: Ranking>(r: &R, s: Seq<u32>) -> bool {
    forall|i: int, j: int| 0 <= i < j < s.len() ==> r.at_most(#[trigger] s[i], #[trigger] s[j])
}

/// Whether `sorted` holds the identifiers of `s`, each as often, in the order of the ranking.
pub open spec fn is_ranking_of<R: Ranking>(r: &R, s: Seq<u32>, sorted: Seq<u32>) -> bool {
    &&& sorted.to_multiset() == s.to_multiset()
    &&& ranked(r, sorted)
}

/// Two sequences with the same elements have the same members and the same length.
pub proof fn lemma_same_members(a: Seq<u32>, b: Seq<u32>)
    requires
        a.to_multiset() == b.to_multiset(),
    ensures
        a.len() == b.len(),
        forall|x: u32| a.contains(x) == b.contains(x),
{
    a.to_multiset_ensures();
    b.to_multiset_ensures();
    assert forall|x: u32| a.contains(x) == b.contains(x) by {
        vstd::seq_lib::to_multiset_contains(a, x);
        vstd::seq_lib::to_multiset_contains(b, x);
    }
}

proof fn lemma_take_step(s: Seq<u32>, i: int)
    requires
        0 <= i < s.len(),
    ensures
        s.take(i + 1).to_multiset() == s.take(i).to_multiset().insert(s[i]),
{
    assert(s.take(i + 1) =~= s.take(i).push(s[i]));
    s.take(i).to_multiset_ensures();
}

/// Merges two ranked lists into one.
fn merge<R: Ranking>(r: &R, a: &Vec<u32>, b: &Vec<u32>) -> (out: Vec<u32>)
    requires
        all_known(r, a@),
        all_known(r, b@),
        ranked(r, a@),
        ranked(r, b@),
    ensures
        out@.to_multiset() == a@.to_multiset().add(b@.to_multiset()),
        ranked(r, out@),
        all_known(r, out@),
{
    let mut out: Vec<u32> = Vec::new();
    let mut i: usize = 0;
    let mut j: usize = 0;
    proof {
        assert(a@.take(0) =~= Seq::<u32>::empty());
        assert(b@.take(0) =~= Seq::<u32>::empty());
        assert(out@ =~= Seq::<u32>::empty());
        Seq::<u32>::empty().to_multiset_ensures();
        assert(out@.to_multiset() =~= a@.take(0).to_multiset().add(b@.take(0).to_multiset()));
    }
    while i < a.len() || j < b.len()
        invariant
            i <= a@.len(),
            j <= b@.len(),
            all_known(r, a@),
            all_known(r, b@),
            ranked(r, a@),
            ranked(r, b@),
            all_known(r, out@),
            ranked(r, out@),
            out@.to_multiset() == a@.take(i as int).to_multiset().add(
                b@.take(j as int).to_multiset(),
            ),
            forall|k: int, m: int|
                0 <= k < out@.len() && i <= m < a@.len() ==> r.at_most(
                    #[trigger] out@[k],
                    #[trigger] a@[m],
                ),
            forall|k: int, m: int|
                0 <= k < out@.len() && j <= m < b@.len() ==> r.at_most(
                    #[trigger] out@[k],
                    #[trigger] b@[m],
                ),
        decreases a@.len() - i + b@.len() - j,
    {
        let take_left = if i == a.len() {
            false
        } else if j == b.len() {
            true
        } else {
            r.in_order(a[i], b[j])
        };
        let ghost shown = out@;
        proof {
            shown.to_multiset_ensures();
        }
        if take_left {
            let x = a[i];
            proof {
                lemma_take_step(a@, i as int);
                assert forall|m: int| j <= m < b@.len() implies r.at_most(x, #[trigger] b@[m]) by {
                    if m > j {
                        r.transitive(x, b@[j as int], b@[m]);
                    }
                }
            }
            out.push(x);
            i += 1;
        } else {
            let x = b[j];
            proof {
                lemma_take_step(b@, j as int);
                assert forall|m: int| i <= m < a@.len() implies r.at_most(x, #[trigger] a@[m]) by {
                    r.total(a@[i as int], x);
                    if m > i {
                        r.transitive(x, a@[i as int], a@[m]);
                    }
                }
            }
            out.push(x);
            j += 1;
        }
        assert(out@.to_multiset() =~= a@.take(i as int).to_multiset().add(
            b@.take(j as int).to_multiset(),
        ));
    }
    assert(a@.take(a@.len() as int) =~= a@);
    assert(b@.take(b@.len() as int) =~= b@);
    out
}

/// `v[from..to]` in the order of the ranking.
fn sort_range<R: Ranking>(r: &R, v: &Vec<u32>, from: usize, to: usize) -> (out: Vec<u32>)
    requires
        from <= to <= v@.len(),
        all_known(r, v@),
    ensures
        is_ranking_of(r, v@.subrange(from as int, to as int), out@),
        all_known(r, out@),
    decreases to - from,
{
    let ghost part = v@.subrange(from as int, to as int);
    if to - from <= 1 {
        let mut out: Vec<u32> = Vec::new();
        if from < to {
            out.push(v[from]);
        }
        assert(out@ =~= part);
        return out;
    }
    let mid: usize = from + (to - from) / 2;
    let left = sort_range(r, v, from, mid);
    let right = sort_range(r, v, mid, to);
    let out = merge(r, &left, &right);
    proof {
        let head = v@.subrange(from as int, mid as int);
        let tail = v@.subrange(mid as int, to as int);
        assert(part =~= head + tail);
        vstd::seq_lib::lemma_multiset_commutative(head, tail);
    }
    out
}

/// The identifiers of `v` in the order of the ranking.
pub fn sort_ids<R: Ranking>(r: &R, v: &Vec<u32>) -> (out: Vec<u32>)
    requires
        all_known(r, v@),
    ensures
        is_ranking_of(r, v@, out@),
        all_known(r, out@),
{
    let out = sort_range(r, v, 0, v.len());
    assert(v@.subrange(0, v@.len() as int) =~= v@);
    out
}

/// Where the ranking never ties, there is only one way to rank a list.
pub proof fn ranking_is_unique<R: Ranking>(r: &R, a: Seq<u32>, b: Seq<u32>)
    requires
        a.to_multiset() == b.to_multiset(),
        ranked(r, a),
        ranked(r, b),
        forall|x: u32, y: u32|
            a.contains(x) && a.contains(y) && #[trigger] r.at_most(x, y) && r.at_most(y, x) ==> x == y,
    ensures
        a == b,
    decreases a.len(),
{
    lemma_same_members(a, b);
    if a.len() == 0 {
        assert(a =~= b);
    } else {
        let x = a[0];
        let y = b[0];
        assert(a.contains(x) && b.contains(x));
        assert(b.contains(y) && a.contains(y));
        let i = choose|i: int| 0 <= i < a.len() && a[i] == y;
        let j = choose|j: int| 0 <= j < b.len() && b[j] == x;
        if x != y {
            assert(r.at_most(a[0], a[i]));
            assert(r.at_most(b[0], b[j]));
        }
        let a1 = a.drop_first();
        let b1 = b.drop_first();
        assert(a =~= seq![x] + a1);
        assert(b =~= seq![x] + b1);
        vstd::seq_lib::lemma_multiset_commutative(seq![x], a1);
        vstd::seq_lib::lemma_multiset_commutative(seq![x], b1);
        let one = seq![x].to_multiset();
        assert(a1.to_multiset() =~= b1.to_multiset()) by {
            assert forall|z: u32| a1.to_multiset().count(z) == b1.to_multiset().count(z) by {
                assert(one.add(a1.to_multiset()).count(z) == one.add(b1.to_multiset()).count(z));
            }
        }
        assert forall|p: u32, q: u32|
            a1.contains(p) && a1.contains(q) && #[trigger] r.at_most(p, q) && r.at_most(
                q,
                p,
            ) implies p == q by {
            let k = choose|k: int| 0 <= k < a1.len() && a1[k] == p;
            let m = choose|m: int| 0 <= m < a1.len() && a1[m] == q;
            assert(a[k + 1] == p && a[m + 1] == q);
        }
        assert forall|i: int, j: int| 0 <= i < j < a1.len() implies r.at_most(
            #[trigger] a1[i],
            #[trigger] a1[j],
        ) by {
            assert(r.at_most(a[i + 1], a[j + 1]));
        }
        assert forall|i: int, j: int| 0 <= i < j < b1.len() implies r.at_most(
            #[trigger] b1[i],
            #[trigger] b1[j],
        ) by {
            assert(r.at_most(b[i + 1], b[j + 1]));
        }
        ranking_is_unique(r, a1, b1);
    }
}

/// Two lists with the same members, each in the same strict order, are the same.
pub proof fn lemma_one_list<T>(a: Seq<T>, b: Seq<T>, before: spec_fn(T, T) -> bool)
    requires
        forall|j: int, k: int|
            0 <= j < k < a.len() ==> #[trigger] before(a[j], a[k]),
        forall|j: int, k: int|
            0 <= j < k < b.len() ==> #[trigger] before(b[j], b[k]),
        forall|x: T| a.contains(x) <==> b.contains(x),
        forall|x: T, y: T| #[trigger] before(x, y) ==> !before(y, x),
    ensures
        a == b,
    decreases a.len(),
{
    if a.len() == 0 {
        if b.len() > 0 {
            assert(b.contains(b[0]));
        }
        assert(a =~= b);
    } else {
        let x = a[0];
        assert(a.contains(x));
        let m = choose|m: int| 0 <= m < b.len() && b[m] == x;
        let y = b[0];
        assert(b.contains(y));
        let n = choose|n: int| 0 <= n < a.len() && a[n] == y;
        if x != y {
            assert(before(b[0], b[m]));
            assert(before(a[0], a[n]));
        }
        let a1 = a.drop_first();
        let b1 = b.drop_first();
        assert forall|j: int, k: int| 0 <= j < k < a1.len() implies #[trigger] before(
            a1[j],
            a1[k],
        ) by {
            assert(before(a[j + 1], a[k + 1]));
        }
        assert forall|j: int, k: int| 0 <= j < k < b1.len() implies #[trigger] before(
            b1[j],
            b1[k],
        ) by {
            assert(before(b[j + 1], b[k + 1]));
        }
        lemma_all_but_the_first(a, before);
        lemma_all_but_the_first(b, before);
        lemma_one_list(a1, b1, before);
        assert(a =~= seq![x] + a1);
        assert(b =~= seq![x] + b1);
    }
}

proof fn lemma_all_but_the_first<T>(s: Seq<T>, before: spec_fn(T, T) -> bool)
    requires
        s.len() > 0,
        forall|j: int, k: int|
            0 <= j < k < s.len() ==> #[trigger] before(s[j], s[k]),
        forall|x: T, y: T| #[trigger] before(x, y) ==> !before(y, x),
    ensures
        forall|x: T| #[trigger] s.drop_first().contains(x) <==> s.contains(x) && x != s[0],
{
    let rest = s.drop_first();
    assert forall|x: T| #[trigger] rest.contains(x) <==> s.contains(x) && x != s[0] by {
        if rest.contains(x) {
            let k = choose|k: int| 0 <= k < rest.len() && rest[k] == x;
            assert(s[k + 1] == x);
            assert(before(s[0], s[k + 1]));
        }
        if s.contains(x) && x != s[0] {
            let k = choose|k: int| 0 <= k < s.len() && s[k] == x;
            assert(rest[k - 1] == x);
        }
    }
}

/// Texts are compared character by character: the first at which they differ decides, and where there
/// is none the shorter one stands before the longer.
pub proof fn the_first_difference_decides(
    common: Seq<char>,
    a: char,
    b: char,
    x: Seq<char>,
    y: Seq<char>,
)
    requires
        a < b,
    ensures
        text_before(common + (seq![a] + x), common + (seq![b] + y)),
        !text_before(common + (seq![b] + y), common + (seq![a] + x)),
        text_before(common, common + (seq![a] + x)),
        !text_before(common + (seq![a] + x), common),
    decreases common.len(),
{
    let p = common + (seq![a] + x);
    let q = common + (seq![b] + y);
    if common.len() == 0 {
        assert(p =~= seq![a] + x);
        assert(q =~= seq![b] + y);
    } else {
        let shorter = common.drop_first();
        assert(p.drop_first() =~= shorter + (seq![a] + x));
        assert(q.drop_first() =~= shorter + (seq![b] + y));
        assert(p[0] == common[0] && q[0] == common[0]);
        the_first_difference_decides(shorter, a, b, x, y);
    }
}

} // verus!
