//! Natural ordering of names, and the sorting core shared by the tree
//! scanner and the page listers.
//!
//! Names are compared with a natural-order comparator: runs of digits
//! compare by numeric value (`page2` before `page10`), other text
//! compares as plain characters. The comparator itself comes from an
//! outside crate and is only named here; what the library proves about
//! its sorts is stated relative to that name: the output is the unique
//! stable insertion of the input (so re-sorting equal input is
//! deterministic), it is a permutation of the input, and adjacent
//! elements are in comparator order.

use vstd::prelude::*;
use vstd::seq_lib::lemma_multiset_commutative;

verus! {

broadcast use vstd::seq_lib::group_to_multiset_ensures;

/// Three-way natural-order comparison of two names: negative when `a`
/// orders first, zero when the comparator ties them, positive when `b`
/// orders first. Named after `natord::compare`, whose result depends on
/// the two strings alone.
pub uninterp spec fn natural_cmp(a: Seq<char>, b: Seq<char>) -> int;

/// Relies on `natord::compare`: a deterministic natural-order comparison
/// of two strings. Its implementation treats the two arguments
/// symmetrically (every branch returning an ordering has the mirrored
/// branch for the swapped pair), so the flipped comparison is the exact
/// negation; comparing a string with itself walks both iterators in
/// lock-step and returns `Equal`.
#[verifier::external_body]
pub(crate) fn natord_compare(a: &str, b: &str) -> (r: i8)
    ensures
        -1 <= r <= 1,
        r as int == natural_cmp(a@, b@),
        natural_cmp(b@, a@) == -(r as int),
        a@ == b@ ==> r == 0,
{
    match natord::compare(a, b) {
        std::cmp::Ordering::Less => -1,
        std::cmp::Ordering::Equal => 0,
        std::cmp::Ordering::Greater => 1,
    }
}

/// Where a stable insertion sort places `x` in the already-sorted `s`:
/// after every element that does not compare strictly greater than `x`,
/// scanning from the right.
pub open spec fn insert_pos<T>(cmp: spec_fn(T, T) -> int, s: Seq<T>, x: T) -> int
    decreases s.len(),
{
    if s.len() == 0 {
        0
    } else if cmp(s.last(), x) > 0 {
        insert_pos(cmp, s.drop_last(), x)
    } else {
        s.len() as int
    }
}

/// One stable insertion of `x` into `s`.
pub open spec fn insort<T>(cmp: spec_fn(T, T) -> int, s: Seq<T>, x: T) -> Seq<T> {
    let p = insert_pos(cmp, s, x);
    s.subrange(0, p).push(x) + s.subrange(p, s.len() as int)
}

/// Stable insertion sort of `s` under the three-way comparator `cmp`:
/// the elements are inserted left to right, each after all retained
/// elements that do not compare strictly greater.
pub open spec fn sort_by_cmp<T>(cmp: spec_fn(T, T) -> int, s: Seq<T>) -> Seq<T>
    decreases s.len(),
{
    if s.len() == 0 {
        s
    } else {
        insort(cmp, sort_by_cmp(cmp, s.drop_last()), s.last())
    }
}

/// Adjacent elements are in comparator order.
pub open spec fn ordered_by<T>(cmp: spec_fn(T, T) -> int, s: Seq<T>) -> bool {
    forall|i: int| 0 <= i < s.len() - 1 ==> #[trigger] cmp(s[i], s[i + 1]) <= 0
}

pub proof fn lemma_insert_pos_bounds<T>(cmp: spec_fn(T, T) -> int, s: Seq<T>, x: T)
    ensures
        0 <= insert_pos(cmp, s, x) <= s.len(),
    decreases s.len(),
{
    if s.len() > 0 && cmp(s.last(), x) > 0 {
        lemma_insert_pos_bounds(cmp, s.drop_last(), x);
    }
}

/// A right-to-left scan that stopped at `j` has found the insertion
/// position: everything from `j` on compares strictly greater than `x`,
/// and the element just before `j` (if any) does not.
pub proof fn lemma_insert_pos_from_scan<T>(cmp: spec_fn(T, T) -> int, s: Seq<T>, x: T, j: int)
    requires
        0 <= j <= s.len(),
        forall|k: int| j <= k < s.len() ==> #[trigger] cmp(s[k], x) > 0,
        j > 0 ==> cmp(s[j - 1], x) <= 0,
    ensures
        insert_pos(cmp, s, x) == j,
    decreases s.len(),
{
    if s.len() == j {
        if j > 0 {
            assert(cmp(s.last(), x) <= 0);
        }
    } else {
        assert(cmp(s.last(), x) > 0);
        lemma_insert_pos_from_scan(cmp, s.drop_last(), x, j);
    }
}

pub proof fn lemma_insort_multiset<T>(cmp: spec_fn(T, T) -> int, s: Seq<T>, x: T)
    ensures
        insort(cmp, s, x).len() == s.len() + 1,
        insort(cmp, s, x).to_multiset() == s.to_multiset().insert(x),
{
    let p = insert_pos(cmp, s, x);
    lemma_insert_pos_bounds(cmp, s, x);
    let left = s.subrange(0, p);
    let right = s.subrange(p, s.len() as int);
    lemma_multiset_commutative(left.push(x), right);
    lemma_multiset_commutative(left, right);
    assert(left + right =~= s);
    assert(left.push(x).to_multiset() =~= left.to_multiset().insert(x));
    assert(insort(cmp, s, x).to_multiset() =~= s.to_multiset().insert(x)) by {
        assert(left.to_multiset().insert(x).add(right.to_multiset()) =~= left.to_multiset().add(
            right.to_multiset(),
        ).insert(x));
    }
}

/// A value the library sorts: it carries the three-way comparison its
/// sibling order uses, exact in both argument orders.
pub trait SortOrder: Sized {
    /// The three-way comparison the sort is stable under.
    spec fn cmp_spec(a: Self, b: Self) -> int;

    /// Executable comparison, mirroring [`SortOrder::cmp_spec`] in
    /// both argument orders.
    fn cmp_exec(&self, other: &Self) -> (r: i8)
        ensures
            r as int == Self::cmp_spec(*self, *other),
            Self::cmp_spec(*other, *self) == -(r as int),
    ;
}

pub open spec fn order_of<T: SortOrder>() -> spec_fn(T, T) -> int {
    |a: T, b: T| T::cmp_spec(a, b)
}

/// Where the stable insertion of `x` lands in the already-sorted `out`.
fn find_pos<T: SortOrder>(out: &Vec<T>, x: &T) -> (j: usize)
    ensures
        j <= out@.len(),
        insert_pos(order_of::<T>(), out@, *x) == j as int,
        forall|k: int| j <= k < out@.len() ==> order_of::<T>()(*x, #[trigger] out@[k]) < 0,
        j > 0 ==> order_of::<T>()(out@[j - 1], *x) <= 0,
{
    let mut j: usize = out.len();
    loop
        invariant
            j <= out@.len(),
            forall|k: int| j <= k < out@.len() ==> order_of::<T>()(#[trigger] out@[k], *x) > 0,
            forall|k: int| j <= k < out@.len() ==> order_of::<T>()(*x, #[trigger] out@[k]) < 0,
        decreases j,
    {
        if j == 0 {
            proof {
                lemma_insert_pos_from_scan(order_of::<T>(), out@, *x, 0);
            }
            return 0;
        }
        let c = out[j - 1].cmp_exec(x);
        if c <= 0 {
            proof {
                lemma_insert_pos_from_scan(order_of::<T>(), out@, *x, j as int);
            }
            return j;
        }
        j = j - 1;
    }
}

/// Stable insertion sort under the type's sibling order: the result
/// is exactly [`sort_by_cmp`] of the input, hence a permutation of it
/// with adjacent elements in comparator order.
pub fn sort_by_order<T: SortOrder>(items: Vec<T>) -> (r: Vec<T>)
    ensures
        r@ == sort_by_cmp(order_of::<T>(), items@),
        r@.to_multiset() == items@.to_multiset(),
        ordered_by(order_of::<T>(), r@),
{
    let ghost orig = items@;
    let mut rest = items;
    let mut out: Vec<T> = Vec::new();
    let ghost mut done: int = 0;
    proof {
        assert(orig.skip(0) =~= orig);
        assert(orig.take(0) =~= Seq::<T>::empty());
    }
    while rest.len() > 0
        invariant
            0 <= done <= orig.len(),
            rest@ == orig.skip(done),
            out@ == sort_by_cmp(order_of::<T>(), orig.take(done)),
            ordered_by(order_of::<T>(), out@),
            out@.len() == done,
        decreases rest@.len(),
    {
        let ghost pre = out@;
        let x = rest.remove(0);
        proof {
            assert(x == orig[done]);
            assert(orig.skip(done).remove(0) =~= orig.skip(done + 1));
        }
        let j = find_pos(&out, &x);
        let ghost p = insert_pos(order_of::<T>(), pre, x);
        out.insert(j, x);
        proof {
            lemma_insert_pos_bounds(order_of::<T>(), pre, x);
            lemma_insort_multiset(order_of::<T>(), pre, x);
            let post = out@;
            let spec_post = insort(order_of::<T>(), pre, x);
            assert(post =~= spec_post);
            assert(sort_by_cmp(order_of::<T>(), orig.take(done + 1)) == insort(
                order_of::<T>(),
                sort_by_cmp(order_of::<T>(), orig.take(done)),
                x,
            )) by {
                assert(orig.take(done + 1).drop_last() =~= orig.take(done));
                assert(orig.take(done + 1).last() == orig[done]);
            }
            assert(ordered_by(order_of::<T>(), post)) by {
                assert forall|i: int|
                    0 <= i < post.len() - 1 implies #[trigger] order_of::<T>()(
                    post[i],
                    post[i + 1],
                ) <= 0 by {
                    if i < p - 1 {
                        assert(post[i] == pre[i] && post[i + 1] == pre[i + 1]);
                        assert(order_of::<T>()(pre[i], pre[i + 1]) <= 0);
                    } else if i == p - 1 {
                        assert(post[i] == pre[p - 1] && post[i + 1] == x);
                    } else if i == p {
                        assert(post[i] == x && post[i + 1] == pre[p]);
                    } else {
                        let m = i - 1;
                        assert(post[i] == pre[m] && post[i + 1] == pre[m + 1]);
                        assert(order_of::<T>()(pre[m], pre[m + 1]) <= 0);
                    }
                }
            }
            done = done + 1;
        }
    }
    proof {
        assert(orig.take(done) =~= orig);
        lemma_sort_by_cmp_multiset(order_of::<T>(), orig);
    }
    out
}

/// Mapping each element through a view that respects the two
/// comparators lands the insertion at the same position.
pub proof fn lemma_insert_pos_map<T, M>(
    cmp_t: spec_fn(T, T) -> int,
    cmp_m: spec_fn(M, M) -> int,
    v: spec_fn(T) -> M,
    s: Seq<T>,
    x: T,
)
    requires
        forall|a: T, b: T| #[trigger] cmp_t(a, b) == cmp_m(v(a), v(b)),
    ensures
        insert_pos(cmp_m, s.map_values(v), v(x)) == insert_pos(cmp_t, s, x),
    decreases s.len(),
{
    let sm = s.map_values(v);
    if s.len() > 0 {
        assert(sm.last() == v(s.last()));
        assert(sm.drop_last() =~= s.drop_last().map_values(v));
        lemma_insert_pos_map(cmp_t, cmp_m, v, s.drop_last(), x);
    }
}

/// The sort of the mapped sequence is the mapped sort, whenever the
/// view respects the two comparators.
pub proof fn lemma_sort_by_cmp_map<T, M>(
    cmp_t: spec_fn(T, T) -> int,
    cmp_m: spec_fn(M, M) -> int,
    v: spec_fn(T) -> M,
    s: Seq<T>,
)
    requires
        forall|a: T, b: T| #[trigger] cmp_t(a, b) == cmp_m(v(a), v(b)),
    ensures
        sort_by_cmp(cmp_m, s.map_values(v)) == sort_by_cmp(cmp_t, s).map_values(v),
    decreases s.len(),
{
    let sm = s.map_values(v);
    if s.len() == 0 {
        assert(sm =~= Seq::<M>::empty());
        assert(sort_by_cmp(cmp_t, s).map_values(v) =~= Seq::<M>::empty());
    } else {
        assert(sm.last() == v(s.last()));
        assert(sm.drop_last() =~= s.drop_last().map_values(v));
        lemma_sort_by_cmp_map(cmp_t, cmp_m, v, s.drop_last());
        let rec_t = sort_by_cmp(cmp_t, s.drop_last());
        let rec_m = sort_by_cmp(cmp_m, sm.drop_last());
        assert(rec_m == rec_t.map_values(v));
        lemma_insert_pos_map(cmp_t, cmp_m, v, rec_t, s.last());
        lemma_insert_pos_bounds(cmp_t, rec_t, s.last());
        let p = insert_pos(cmp_t, rec_t, s.last());
        assert(insort(cmp_m, rec_m, v(s.last())) =~= insort(cmp_t, rec_t, s.last()).map_values(
            v,
        )) by {
            let left = insort(cmp_m, rec_m, v(s.last()));
            let right = insort(cmp_t, rec_t, s.last()).map_values(v);
            lemma_insort_multiset(cmp_t, rec_t, s.last());
            lemma_insort_multiset(cmp_m, rec_m, v(s.last()));
            assert(rec_m.len() == rec_t.len());
            assert forall|k: int| 0 <= k < left.len() implies left[k] == right[k] by {
                assert(insort(cmp_t, rec_t, s.last())[k] == (if k < p {
                    rec_t[k]
                } else if k == p {
                    s.last()
                } else {
                    rec_t[k - 1]
                }));
            }
        }
    }
}

/// The sorted sequence is a permutation of the input.
pub proof fn lemma_sort_by_cmp_multiset<T>(cmp: spec_fn(T, T) -> int, s: Seq<T>)
    ensures
        sort_by_cmp(cmp, s).len() == s.len(),
        sort_by_cmp(cmp, s).to_multiset() == s.to_multiset(),
    decreases s.len(),
{
    if s.len() > 0 {
        lemma_sort_by_cmp_multiset(cmp, s.drop_last());
        lemma_insort_multiset(cmp, sort_by_cmp(cmp, s.drop_last()), s.last());
        assert(s.drop_last().push(s.last()) =~= s);
        assert(s.drop_last().to_multiset().insert(s.last()) =~= s.to_multiset());
    }
}

} // verus!
