//! Set-style operations for vectors whose content is already sorted: a
//! merge-style two-pointer sweep replaces the quadratic scans of the
//! unordered module, at the price of a caller-supplied order predicate that
//! must agree with the actual order of both inputs.
use vstd::prelude::*;

verus! {

use crate::vec::{decides, eq_rel, total_on};
use vstd::std_specs::cmp::{PartialEqSpec, PartialOrdSpec};

/// The relation that `<` computes when `T` obeys its ordering specification.
pub open spec fn lt_rel<T: PartialOrd>() -> spec_fn(T, T) -> bool {
    |x: T, y: T| x.partial_cmp_spec(&y) == Some(core::cmp::Ordering::Less)
}

/// The relation that `>` computes when `T` obeys its ordering specification.
pub open spec fn gt_rel<T: PartialOrd>() -> spec_fn(T, T) -> bool {
    |x: T, y: T| x.partial_cmp_spec(&y) == Some(core::cmp::Ordering::Greater)
}

/// Whether the sweep may emit `cur` after having last advanced past `prev`:
/// it may unless the two are equivalent, which keeps runs of equivalent
/// elements down to their first member.
pub open spec fn emit_ok<T>(prev: Option<T>, cur: T, eq: spec_fn(T, T) -> bool) -> bool {
    match prev {
        Option::None => true,
        Option::Some(p) => !eq(p, cur),
    }
}

/// The element the sweep last advanced past, before position `i` of `a`.
pub open spec fn prev_of<T>(a: Seq<T>, i: int) -> Option<T> {
    if i == 0 {
        Option::None
    } else {
        Option::Some(a[i - 1])
    }
}

/// The merge-style sweep behind the sorted difference: walk `a` and `b`
/// together, drop heads of `b` that are ordered before `a`'s head, drop
/// matched heads of both, and emit unmatched heads of `a` that do not
/// repeat the element last advanced past.
pub open spec fn merge_uniq<T>(
    a: Seq<T>,
    b: Seq<T>,
    prev: Option<T>,
    eq: spec_fn(T, T) -> bool,
    ord: spec_fn(T, T) -> bool,
) -> Seq<T>
    decreases a.len() + b.len(),
{
    if a.len() == 0 {
        Seq::empty()
    } else if b.len() == 0 {
        let rest = merge_uniq(a.drop_first(), b, Option::Some(a[0]), eq, ord);
        if emit_ok(prev, a[0], eq) {
            seq![a[0]] + rest
        } else {
            rest
        }
    } else if ord(b[0], a[0]) {
        merge_uniq(a, b.drop_first(), prev, eq, ord)
    } else if eq(b[0], a[0]) {
        merge_uniq(a.drop_first(), b.drop_first(), Option::Some(a[0]), eq, ord)
    } else {
        let rest = merge_uniq(a.drop_first(), b, Option::Some(a[0]), eq, ord);
        if emit_ok(prev, a[0], eq) {
            seq![a[0]] + rest
        } else {
            rest
        }
    }
}

/// A single sweep that keeps each element not equivalent to the element
/// immediately before it.
pub open spec fn adj_dedup<T>(s: Seq<T>, eq: spec_fn(T, T) -> bool) -> Seq<T>
    decreases s.len(),
{
    if s.len() <= 1 {
        s
    } else if eq(s.last(), s[s.len() - 2]) {
        adj_dedup(s.drop_last(), eq)
    } else {
        adj_dedup(s.drop_last(), eq).push(s.last())
    }
}

/// No element is equivalent to the one immediately before it.
pub open spec fn adjacent_unrelated<T>(s: Seq<T>, eq: spec_fn(T, T) -> bool) -> bool {
    forall|i: int| 1 <= i < s.len() ==> !eq(#[trigger] s[i], s[i - 1])
}

/// The merge-style sweep behind the sorted intersection: emit the head of
/// `a` on a match, otherwise advance whichever side is ordered first.
pub open spec fn merge_intersect<T>(
    a: Seq<T>,
    b: Seq<T>,
    eq: spec_fn(T, T) -> bool,
    ord: spec_fn(T, T) -> bool,
) -> Seq<T>
    decreases a.len() + b.len(),
{
    if a.len() == 0 || b.len() == 0 {
        Seq::empty()
    } else if eq(a[0], b[0]) {
        seq![a[0]] + merge_intersect(a.drop_first(), b.drop_first(), eq, ord)
    } else if ord(a[0], b[0]) {
        merge_intersect(a.drop_first(), b, eq, ord)
    } else {
        merge_intersect(a, b.drop_first(), eq, ord)
    }
}

/// Collection of methods for getting or evaluating uniqueness, assuming some
/// kind of sorted-ness of the input.
pub trait SortedUniq<T: PartialEq + PartialOrd + Copy>: Sized + View<V = Seq<T>> {
    /// Values of `self` with no equal counterpart in `other`, both sorted
    /// ascending, runs of equal values kept down to their first member.
    fn uniq(&self, other: Self) -> (out: Self)
        ensures
            T::obeys_eq_spec() && T::obeys_partial_cmp_spec() ==> out@ == merge_uniq(
                self@,
                other@,
                Option::None,
                eq_rel::<T>(),
                lt_rel::<T>(),
            ),
    ;

    /// As `uniq`, for vectors sorted descending.
    fn uniq_desc(&self, other: Self) -> (out: Self)
        ensures
            T::obeys_eq_spec() && T::obeys_partial_cmp_spec() ==> out@ == merge_uniq(
                self@,
                other@,
                Option::None,
                eq_rel::<T>(),
                gt_rel::<T>(),
            ),
    ;

    /// Removes duplicated elements, which sorted-ness has made adjacent.
    fn unique(&self) -> (out: Self)
        ensures
            T::obeys_eq_spec() ==> out@ == adj_dedup(self@, eq_rel::<T>()),
    ;

    /// Whether no two adjacent elements are equal.
    fn is_unique(&self) -> (res: bool)
        ensures
            T::obeys_eq_spec() ==> res == adjacent_unrelated(self@, eq_rel::<T>()),
    ;

    /// The merge-style sweep under caller-supplied equivalence and order
    /// predicates; the order predicate is applied as
    /// `ord(&element of other, &element of self)` and decides which side
    /// advances, so it must agree with the actual sort direction of both.
    fn uniq_via<F: Fn(&T, &T) -> bool, K: Fn(&T, &T) -> bool>(
        &self,
        other: Self,
        eq: F,
        ord: K,
    ) -> (out: Self)
        requires
            total_on::<T, F>(eq),
            total_on::<T, K>(ord),
        ensures
            forall|e: spec_fn(T, T) -> bool, o: spec_fn(T, T) -> bool|
                #![trigger decides(eq, e), decides(ord, o)]
                decides(eq, e) && decides(ord, o) ==> out@ == merge_uniq(
                    self@,
                    other@,
                    Option::None,
                    e,
                    o,
                ),
    ;

    /// A single sweep keeping each element not equivalent to its
    /// predecessor, under a caller-supplied equivalence predicate.
    fn unique_via<F: Fn(&T, &T) -> bool>(&self, eq: F) -> (out: Self)
        requires
            total_on::<T, F>(eq),
        ensures
            forall|e: spec_fn(T, T) -> bool| #[trigger] decides(eq, e) ==> out@ == adj_dedup(
                self@,
                e,
            ),
    ;

    /// Whether no element is equivalent to its predecessor, under a
    /// caller-supplied equivalence predicate.
    fn is_unique_via<F: Fn(&T, &T) -> bool>(&self, eq: F) -> (res: bool)
        requires
            total_on::<T, F>(eq),
        ensures
            forall|e: spec_fn(T, T) -> bool| #[trigger] decides(eq, e) ==> res
                == adjacent_unrelated(self@, e),
    ;
}

impl<T: PartialEq + PartialOrd + Copy> SortedUniq<T> for Vec<T> {
    fn uniq(&self, other: Vec<T>) -> (out: Vec<T>) {
        let g = crate::vec::equality_comparator::<T>();
        let l = less_comparator::<T>();
        let out = SortedUniq::uniq_via(self, other, g, l);
        proof {
            if T::obeys_eq_spec() && T::obeys_partial_cmp_spec() {
                crate::vec::lemma_equality_comparator_decides::<T>(g);
                lemma_less_comparator_decides::<T>(l);
            }
        }
        out
    }

    fn uniq_desc(&self, other: Vec<T>) -> (out: Vec<T>) {
        let g = crate::vec::equality_comparator::<T>();
        let gt = greater_comparator::<T>();
        let out = SortedUniq::uniq_via(self, other, g, gt);
        proof {
            if T::obeys_eq_spec() && T::obeys_partial_cmp_spec() {
                crate::vec::lemma_equality_comparator_decides::<T>(g);
                lemma_greater_comparator_decides::<T>(gt);
            }
        }
        out
    }

    fn unique(&self) -> (out: Vec<T>) {
        let g = crate::vec::equality_comparator::<T>();
        let out = SortedUniq::unique_via(self, g);
        proof {
            if T::obeys_eq_spec() {
                crate::vec::lemma_equality_comparator_decides::<T>(g);
            }
        }
        out
    }

    fn is_unique(&self) -> (res: bool) {
        let g = crate::vec::equality_comparator::<T>();
        let res = SortedUniq::is_unique_via(self, g);
        proof {
            if T::obeys_eq_spec() {
                crate::vec::lemma_equality_comparator_decides::<T>(g);
            }
        }
        res
    }

    fn uniq_via<F: Fn(&T, &T) -> bool, K: Fn(&T, &T) -> bool>(
        &self,
        other: Vec<T>,
        eq: F,
        ord: K,
    ) -> (out: Vec<T>) {
        let mut out: Vec<T> = Vec::new();
        let n = self.len();
        let m = other.len();
        let mut i: usize = 0;
        let mut j: usize = 0;
        proof {
            assert forall|e: spec_fn(T, T) -> bool, o: spec_fn(T, T) -> bool|
                #![trigger decides(eq, e), decides(ord, o)]
                decides(eq, e) && decides(ord, o) implies merge_uniq(
                self@,
                other@,
                Option::None,
                e,
                o,
            ) == out@ + merge_uniq(self@.skip(0), other@.skip(0), prev_of(self@, 0), e, o) by {
                assert(self@.skip(0) =~= self@);
                assert(other@.skip(0) =~= other@);
                assert(out@ + merge_uniq(self@, other@, Option::None, e, o) =~= merge_uniq(
                    self@,
                    other@,
                    Option::None,
                    e,
                    o,
                ));
            }
        }
        while i < n && j < m
            invariant
                i <= n,
                j <= m,
                n == self@.len(),
                m == other@.len(),
                total_on::<T, F>(eq),
                total_on::<T, K>(ord),
                forall|e: spec_fn(T, T) -> bool, o: spec_fn(T, T) -> bool|
                    #![trigger decides(eq, e), decides(ord, o)]
                    decides(eq, e) && decides(ord, o) ==> merge_uniq(
                        self@,
                        other@,
                        Option::None,
                        e,
                        o,
                    ) == out@ + merge_uniq(
                        self@.skip(i as int),
                        other@.skip(j as int),
                        prev_of(self@, i as int),
                        e,
                        o,
                    ),
            decreases n - i + m - j,
        {
            let b1 = ord(&other[j], &self[i]);
            if b1 {
                proof {
                    assert forall|e: spec_fn(T, T) -> bool, o: spec_fn(T, T) -> bool|
                        #![trigger decides(eq, e), decides(ord, o)]
                        decides(eq, e) && decides(ord, o) implies merge_uniq(
                        self@,
                        other@,
                        Option::None,
                        e,
                        o,
                    ) == out@ + merge_uniq(
                        self@.skip(i as int),
                        other@.skip(j as int + 1),
                        prev_of(self@, i as int),
                        e,
                        o,
                    ) by {
                        assert(o(other@[j as int], self@[i as int]));
                        assert(other@.skip(j as int)[0] == other@[j as int]);
                        assert(self@.skip(i as int)[0] == self@[i as int]);
                        assert(other@.skip(j as int).drop_first() =~= other@.skip(j as int + 1));
                    }
                }
                j += 1;
            } else {
                let b2 = eq(&other[j], &self[i]);
                if b2 {
                    proof {
                        assert forall|e: spec_fn(T, T) -> bool, o: spec_fn(T, T) -> bool|
                            #![trigger decides(eq, e), decides(ord, o)]
                            decides(eq, e) && decides(ord, o) implies merge_uniq(
                            self@,
                            other@,
                            Option::None,
                            e,
                            o,
                        ) == out@ + merge_uniq(
                            self@.skip(i as int + 1),
                            other@.skip(j as int + 1),
                            prev_of(self@, i as int + 1),
                            e,
                            o,
                        ) by {
                            assert(!o(other@[j as int], self@[i as int]));
                            assert(e(other@[j as int], self@[i as int]));
                            assert(other@.skip(j as int)[0] == other@[j as int]);
                            assert(self@.skip(i as int)[0] == self@[i as int]);
                            assert(other@.skip(j as int).drop_first() =~= other@.skip(
                                j as int + 1,
                            ));
                            assert(self@.skip(i as int).drop_first() =~= self@.skip(i as int + 1));
                            assert(prev_of(self@, i as int + 1) == Option::Some(self@[i as int]));
                        }
                    }
                    i += 1;
                    j += 1;
                } else {
                    let keep: bool = if i == 0 {
                        true
                    } else {
                        let b3 = eq(&self[i - 1], &self[i]);
                        !b3
                    };
                    let ghost out0 = out@;
                    if keep {
                        out.push(self[i]);
                    }
                    proof {
                        assert forall|e: spec_fn(T, T) -> bool, o: spec_fn(T, T) -> bool|
                            #![trigger decides(eq, e), decides(ord, o)]
                            decides(eq, e) && decides(ord, o) implies merge_uniq(
                            self@,
                            other@,
                            Option::None,
                            e,
                            o,
                        ) == out@ + merge_uniq(
                            self@.skip(i as int + 1),
                            other@.skip(j as int),
                            prev_of(self@, i as int + 1),
                            e,
                            o,
                        ) by {
                            let av = self@.skip(i as int);
                            let bv = other@.skip(j as int);
                            let p = prev_of(self@, i as int);
                            assert(!o(other@[j as int], self@[i as int]));
                            assert(!e(other@[j as int], self@[i as int]));
                            assert(bv[0] == other@[j as int]);
                            assert(av[0] == self@[i as int]);
                            assert(av.drop_first() =~= self@.skip(i as int + 1));
                            assert(prev_of(self@, i as int + 1) == Option::Some(self@[i as int]));
                            let rest = merge_uniq(
                                self@.skip(i as int + 1),
                                bv,
                                Option::Some(self@[i as int]),
                                e,
                                o,
                            );
                            assert(emit_ok(p, av[0], e) == keep);
                            if keep {
                                assert(merge_uniq(av, bv, p, e, o) == seq![av[0]] + rest);
                                assert(out0 + (seq![av[0]] + rest) =~= out0.push(
                                    av[0],
                                ) + rest);
                            } else {
                                assert(merge_uniq(av, bv, p, e, o) == rest);
                            }
                        }
                    }
                    i += 1;
                }
            }
        }
        while i < n
            invariant
                i <= n,
                j <= m,
                i < n ==> j == m,
                n == self@.len(),
                m == other@.len(),
                total_on::<T, F>(eq),
                forall|e: spec_fn(T, T) -> bool, o: spec_fn(T, T) -> bool|
                    #![trigger decides(eq, e), decides(ord, o)]
                    decides(eq, e) && decides(ord, o) ==> merge_uniq(
                        self@,
                        other@,
                        Option::None,
                        e,
                        o,
                    ) == out@ + merge_uniq(
                        self@.skip(i as int),
                        other@.skip(j as int),
                        prev_of(self@, i as int),
                        e,
                        o,
                    ),
            decreases n - i,
        {
            let keep: bool = if i == 0 {
                true
            } else {
                let b3 = eq(&self[i - 1], &self[i]);
                !b3
            };
            let ghost out0 = out@;
            if keep {
                out.push(self[i]);
            }
            proof {
                assert forall|e: spec_fn(T, T) -> bool, o: spec_fn(T, T) -> bool|
                    #![trigger decides(eq, e), decides(ord, o)]
                    decides(eq, e) && decides(ord, o) implies merge_uniq(
                    self@,
                    other@,
                    Option::None,
                    e,
                    o,
                ) == out@ + merge_uniq(
                    self@.skip(i as int + 1),
                    other@.skip(j as int),
                    prev_of(self@, i as int + 1),
                    e,
                    o,
                ) by {
                    let av = self@.skip(i as int);
                    let bv = other@.skip(j as int);
                    let p = prev_of(self@, i as int);
                    assert(bv.len() == 0);
                    assert(av[0] == self@[i as int]);
                    assert(av.drop_first() =~= self@.skip(i as int + 1));
                    assert(prev_of(self@, i as int + 1) == Option::Some(self@[i as int]));
                    let rest = merge_uniq(
                        self@.skip(i as int + 1),
                        bv,
                        Option::Some(self@[i as int]),
                        e,
                        o,
                    );
                    assert(emit_ok(p, av[0], e) == keep);
                    if keep {
                        assert(merge_uniq(av, bv, p, e, o) == seq![av[0]] + rest);
                        assert(out0 + (seq![av[0]] + rest) =~= out0.push(av[0]) + rest);
                    } else {
                        assert(merge_uniq(av, bv, p, e, o) == rest);
                    }
                }
            }
            i += 1;
        }
        proof {
            assert forall|e: spec_fn(T, T) -> bool, o: spec_fn(T, T) -> bool|
                #![trigger decides(eq, e), decides(ord, o)]
                decides(eq, e) && decides(ord, o) implies merge_uniq(
                self@,
                other@,
                Option::None,
                e,
                o,
            ) == out@ by {
                assert(merge_uniq(
                    self@.skip(i as int),
                    other@.skip(j as int),
                    prev_of(self@, i as int),
                    e,
                    o,
                ) == Seq::<T>::empty()) by {
                    if i == n {
                        assert(self@.skip(i as int).len() == 0);
                    }
                }
                assert(out@ + Seq::<T>::empty() =~= out@);
            }
        }
        out
    }

    fn unique_via<F: Fn(&T, &T) -> bool>(&self, eq: F) -> (out: Vec<T>) {
        let mut out: Vec<T> = Vec::new();
        let n = self.len();
        if n == 0 {
            return out;
        }
        out.push(self[0]);
        proof {
            assert(self@.take(1).len() == 1);
            assert(out@ =~= self@.take(1));
        }
        for i in 1..n
            invariant
                1 <= i <= n,
                n == self@.len(),
                total_on::<T, F>(eq),
                forall|e: spec_fn(T, T) -> bool| #[trigger] decides(eq, e) ==> out@ == adj_dedup(
                    self@.take(i as int),
                    e,
                ),
        {
            let b = eq(&self[i], &self[i - 1]);
            if !b {
                out.push(self[i]);
            }
            proof {
                assert(self@.take(i as int + 1).drop_last() =~= self@.take(i as int));
                assert forall|e: spec_fn(T, T) -> bool| #[trigger] decides(eq, e) implies out@
                    == adj_dedup(self@.take(i as int + 1), e) by {
                    let t = self@.take(i as int + 1);
                    assert(t.len() == i + 1);
                    assert(t.last() == self@[i as int]);
                    assert(t[t.len() - 2] == self@[i as int - 1]);
                    assert(e(self@[i as int], self@[i as int - 1]) == b);
                }
            }
        }
        proof {
            assert(self@.take(n as int) =~= self@);
        }
        out
    }

    fn is_unique_via<F: Fn(&T, &T) -> bool>(&self, eq: F) -> (res: bool) {
        let n = self.len();
        if n == 0 {
            return true;
        }
        for i in 1..n
            invariant
                n == self@.len(),
                total_on::<T, F>(eq),
                forall|e: spec_fn(T, T) -> bool| #[trigger] decides(eq, e) ==> (forall|i2: int|
                    1 <= i2 < i ==> !e(#[trigger] self@[i2], self@[i2 - 1])),
        {
            let b = eq(&self[i], &self[i - 1]);
            if b {
                proof {
                    assert forall|e: spec_fn(T, T) -> bool| #[trigger] decides(eq, e) implies
                        !adjacent_unrelated(self@, e) by {
                        assert(e(self@[i as int], self@[i as int - 1]));
                    }
                }
                return false;
            }
            proof {
                assert forall|e: spec_fn(T, T) -> bool| #[trigger] decides(eq, e) implies (forall|
                    i2: int,
                |
                    1 <= i2 < i + 1 ==> !e(#[trigger] self@[i2], self@[i2 - 1])) by {
                    assert(!e(self@[i as int], self@[i as int - 1]));
                }
            }
        }
        true
    }
}

/// Sorted set intersection: a new vector with the elements common to the
/// two sorted vectors, in the order of the first.
pub trait SortedIntersect<T: PartialEq + PartialOrd + Copy>: Sized + View<V = Seq<T>> {
    /// Intersection of two vectors sorted ascending.
    fn intersect(&self, other: Self) -> (out: Self)
        ensures
            T::obeys_eq_spec() && T::obeys_partial_cmp_spec() ==> out@ == merge_intersect(
                self@,
                other@,
                eq_rel::<T>(),
                lt_rel::<T>(),
            ),
    ;

    /// Intersection of two vectors sorted descending.
    fn intersect_desc(&self, other: Self) -> (out: Self)
        ensures
            T::obeys_eq_spec() && T::obeys_partial_cmp_spec() ==> out@ == merge_intersect(
                self@,
                other@,
                eq_rel::<T>(),
                gt_rel::<T>(),
            ),
    ;

    /// The merge-style sweep under caller-supplied equivalence and order
    /// predicates, both applied as `(&element of self, &element of other)`.
    fn intersect_if<E: Fn(&T, &T) -> bool, O: Fn(&T, &T) -> bool>(
        &self,
        other: Self,
        eq: E,
        ord: O,
    ) -> (out: Self)
        requires
            total_on::<T, E>(eq),
            total_on::<T, O>(ord),
        ensures
            forall|e: spec_fn(T, T) -> bool, o: spec_fn(T, T) -> bool|
                #![trigger decides(eq, e), decides(ord, o)]
                decides(eq, e) && decides(ord, o) ==> out@ == merge_intersect(self@, other@, e, o),
    ;
}

impl<T: PartialEq + PartialOrd + Copy> SortedIntersect<T> for Vec<T> {
    fn intersect(&self, other: Vec<T>) -> (out: Vec<T>) {
        let g = crate::vec::equality_comparator::<T>();
        let l = less_comparator::<T>();
        let out = SortedIntersect::intersect_if(self, other, g, l);
        proof {
            if T::obeys_eq_spec() && T::obeys_partial_cmp_spec() {
                crate::vec::lemma_equality_comparator_decides::<T>(g);
                lemma_less_comparator_decides::<T>(l);
            }
        }
        out
    }

    fn intersect_desc(&self, other: Vec<T>) -> (out: Vec<T>) {
        let g = crate::vec::equality_comparator::<T>();
        let gt = greater_comparator::<T>();
        let out = SortedIntersect::intersect_if(self, other, g, gt);
        proof {
            if T::obeys_eq_spec() && T::obeys_partial_cmp_spec() {
                crate::vec::lemma_equality_comparator_decides::<T>(g);
                lemma_greater_comparator_decides::<T>(gt);
            }
        }
        out
    }

    fn intersect_if<E: Fn(&T, &T) -> bool, O: Fn(&T, &T) -> bool>(
        &self,
        other: Vec<T>,
        eq: E,
        ord: O,
    ) -> (out: Vec<T>) {
        let mut out: Vec<T> = Vec::new();
        let n = self.len();
        let m = other.len();
        let mut i: usize = 0;
        let mut j: usize = 0;
        proof {
            assert forall|e: spec_fn(T, T) -> bool, o: spec_fn(T, T) -> bool|
                #![trigger decides(eq, e), decides(ord, o)]
                decides(eq, e) && decides(ord, o) implies merge_intersect(self@, other@, e, o)
                == out@ + merge_intersect(self@.skip(0), other@.skip(0), e, o) by {
                assert(self@.skip(0) =~= self@);
                assert(other@.skip(0) =~= other@);
                assert(out@ + merge_intersect(self@, other@, e, o) =~= merge_intersect(
                    self@,
                    other@,
                    e,
                    o,
                ));
            }
        }
        while i < n && j < m
            invariant
                i <= n,
                j <= m,
                n == self@.len(),
                m == other@.len(),
                total_on::<T, E>(eq),
                total_on::<T, O>(ord),
                forall|e: spec_fn(T, T) -> bool, o: spec_fn(T, T) -> bool|
                    #![trigger decides(eq, e), decides(ord, o)]
                    decides(eq, e) && decides(ord, o) ==> merge_intersect(self@, other@, e, o)
                        == out@ + merge_intersect(
                        self@.skip(i as int),
                        other@.skip(j as int),
                        e,
                        o,
                    ),
            decreases n - i + m - j,
        {
            let b1 = eq(&self[i], &other[j]);
            if b1 {
                let ghost out0 = out@;
                out.push(self[i]);
                proof {
                    assert forall|e: spec_fn(T, T) -> bool, o: spec_fn(T, T) -> bool|
                        #![trigger decides(eq, e), decides(ord, o)]
                        decides(eq, e) && decides(ord, o) implies merge_intersect(
                        self@,
                        other@,
                        e,
                        o,
                    ) == out@ + merge_intersect(
                        self@.skip(i as int + 1),
                        other@.skip(j as int + 1),
                        e,
                        o,
                    ) by {
                        let av = self@.skip(i as int);
                        let bv = other@.skip(j as int);
                        assert(av[0] == self@[i as int]);
                        assert(bv[0] == other@[j as int]);
                        assert(e(self@[i as int], other@[j as int]));
                        assert(av.drop_first() =~= self@.skip(i as int + 1));
                        assert(bv.drop_first() =~= other@.skip(j as int + 1));
                        let rest = merge_intersect(
                            self@.skip(i as int + 1),
                            other@.skip(j as int + 1),
                            e,
                            o,
                        );
                        assert(merge_intersect(av, bv, e, o) == seq![av[0]] + rest);
                        assert(out0 + (seq![av[0]] + rest) =~= out0.push(av[0]) + rest);
                    }
                }
                i += 1;
                j += 1;
            } else {
                let b2 = ord(&self[i], &other[j]);
                if b2 {
                    proof {
                        assert forall|e: spec_fn(T, T) -> bool, o: spec_fn(T, T) -> bool|
                            #![trigger decides(eq, e), decides(ord, o)]
                            decides(eq, e) && decides(ord, o) implies merge_intersect(
                            self@,
                            other@,
                            e,
                            o,
                        ) == out@ + merge_intersect(
                            self@.skip(i as int + 1),
                            other@.skip(j as int),
                            e,
                            o,
                        ) by {
                            let av = self@.skip(i as int);
                            let bv = other@.skip(j as int);
                            assert(av[0] == self@[i as int]);
                            assert(bv[0] == other@[j as int]);
                            assert(!e(self@[i as int], other@[j as int]));
                            assert(o(self@[i as int], other@[j as int]));
                            assert(av.drop_first() =~= self@.skip(i as int + 1));
                        }
                    }
                    i += 1;
                } else {
                    proof {
                        assert forall|e: spec_fn(T, T) -> bool, o: spec_fn(T, T) -> bool|
                            #![trigger decides(eq, e), decides(ord, o)]
                            decides(eq, e) && decides(ord, o) implies merge_intersect(
                            self@,
                            other@,
                            e,
                            o,
                        ) == out@ + merge_intersect(
                            self@.skip(i as int),
                            other@.skip(j as int + 1),
                            e,
                            o,
                        ) by {
                            let av = self@.skip(i as int);
                            let bv = other@.skip(j as int);
                            assert(av[0] == self@[i as int]);
                            assert(bv[0] == other@[j as int]);
                            assert(!e(self@[i as int], other@[j as int]));
                            assert(!o(self@[i as int], other@[j as int]));
                            assert(bv.drop_first() =~= other@.skip(j as int + 1));
                        }
                    }
                    j += 1;
                }
            }
        }
        proof {
            assert forall|e: spec_fn(T, T) -> bool, o: spec_fn(T, T) -> bool|
                #![trigger decides(eq, e), decides(ord, o)]
                decides(eq, e) && decides(ord, o) implies merge_intersect(self@, other@, e, o)
                == out@ by {
                assert(merge_intersect(self@.skip(i as int), other@.skip(j as int), e, o)
                    == Seq::<T>::empty()) by {
                    if i == n {
                        assert(self@.skip(i as int).len() == 0);
                    } else {
                        assert(other@.skip(j as int).len() == 0);
                    }
                }
                assert(out@ + Seq::<T>::empty() =~= out@);
            }
        }
        out
    }
}

/// `eq` and `ord` fit together as a strict weak order: two elements are
/// equivalent exactly when neither is ordered before the other, and both
/// the order and the equivalence carry over transitively.
pub open spec fn consistent_comparators<T>(
    eq: spec_fn(T, T) -> bool,
    ord: spec_fn(T, T) -> bool,
) -> bool {
    &&& forall|x: T, y: T| #[trigger] eq(x, y) <==> (!ord(x, y) && !ord(y, x))
    &&& vstd::relations::transitive(ord)
    &&& vstd::relations::transitive(eq)
}

/// Every element of `s` is strictly ordered before every later one.
pub open spec fn sorted_strictly_by<T>(s: Seq<T>, ord: spec_fn(T, T) -> bool) -> bool {
    forall|i: int, j: int| 0 <= i < j < s.len() ==> ord(#[trigger] s[i], #[trigger] s[j])
}

/// On strictly sorted inputs the merge sweep computes a plain filter: the
/// elements of `a` with no equivalent anywhere in `b`.
proof fn lemma_merge_uniq_is_filter<T>(
    a: Seq<T>,
    b: Seq<T>,
    prev: Option<T>,
    eq: spec_fn(T, T) -> bool,
    ord: spec_fn(T, T) -> bool,
)
    requires
        consistent_comparators(eq, ord),
        sorted_strictly_by(a, ord),
        sorted_strictly_by(b, ord),
        (match prev {
            Option::Some(p) => forall|k: int| 0 <= k < a.len() ==> ord(p, #[trigger] a[k]),
            Option::None => true,
        }),
    ensures
        merge_uniq(a, b, prev, eq, ord) == a.filter(
            |z: T| crate::vec::no_match_in(z, b, eq),
        ),
    decreases a.len() + b.len(),
{
    let pred = |z: T| crate::vec::no_match_in(z, b, eq);
    if a.len() == 0 {
        reveal(Seq::filter);
        assert(a =~= Seq::<T>::empty());
    } else if b.len() == 0 {
        let adf = a.drop_first();
        assert(sorted_strictly_by(adf, ord)) by {
            assert forall|i: int, j: int| 0 <= i < j < adf.len() implies ord(
                #[trigger] adf[i],
                #[trigger] adf[j],
            ) by {
                assert(adf[i] == a[i + 1] && adf[j] == a[j + 1]);
            }
        }
        assert forall|k: int| 0 <= k < adf.len() implies ord(a[0], #[trigger] adf[k]) by {
            assert(adf[k] == a[k + 1]);
        }
        lemma_merge_uniq_is_filter(adf, b, Option::Some(a[0]), eq, ord);
        assert(emit_ok(prev, a[0], eq)) by {
            match prev {
                Option::Some(p) => {
                    assert(ord(p, a[0]));
                }
                Option::None => {}
            }
        }
        crate::vec::lemma_filter_first(a, pred);
        assert(pred(a[0]));
    } else if ord(b[0], a[0]) {
        let bdf = b.drop_first();
        assert(sorted_strictly_by(bdf, ord)) by {
            assert forall|i: int, j: int| 0 <= i < j < bdf.len() implies ord(
                #[trigger] bdf[i],
                #[trigger] bdf[j],
            ) by {
                assert(bdf[i] == b[i + 1] && bdf[j] == b[j + 1]);
            }
        }
        lemma_merge_uniq_is_filter(a, bdf, prev, eq, ord);
        let pred2 = |z: T| crate::vec::no_match_in(z, bdf, eq);
        assert forall|k: int| 0 <= k < a.len() implies pred(#[trigger] a[k]) == pred2(a[k]) by {
            if pred(a[k]) {
                assert forall|m: int| 0 <= m < bdf.len() implies !eq(#[trigger] bdf[m], a[k]) by {
                    assert(bdf[m] == b[m + 1]);
                }
            }
            if pred2(a[k]) && !pred(a[k]) {
                let mm = choose|mm: int| 0 <= mm < b.len() && eq(b[mm], a[k]);
                if mm > 0 {
                    assert(bdf[mm - 1] == b[mm]);
                    assert(!eq(bdf[mm - 1], a[k]));
                    assert(false);
                } else {
                    if k == 0 {
                        assert(eq(b[0], a[0]) && ord(b[0], a[0]));
                        assert(false);
                    } else {
                        assert(ord(a[0], a[k]));
                        assert(ord(b[0], a[k]));
                        assert(!eq(b[0], a[k]));
                        assert(false);
                    }
                }
            }
        }
        crate::vec::lemma_filter_congruent(a, pred, pred2);
    } else if eq(b[0], a[0]) {
        let adf = a.drop_first();
        let bdf = b.drop_first();
        assert(sorted_strictly_by(adf, ord)) by {
            assert forall|i: int, j: int| 0 <= i < j < adf.len() implies ord(
                #[trigger] adf[i],
                #[trigger] adf[j],
            ) by {
                assert(adf[i] == a[i + 1] && adf[j] == a[j + 1]);
            }
        }
        assert(sorted_strictly_by(bdf, ord)) by {
            assert forall|i: int, j: int| 0 <= i < j < bdf.len() implies ord(
                #[trigger] bdf[i],
                #[trigger] bdf[j],
            ) by {
                assert(bdf[i] == b[i + 1] && bdf[j] == b[j + 1]);
            }
        }
        assert forall|k: int| 0 <= k < adf.len() implies ord(a[0], #[trigger] adf[k]) by {
            assert(adf[k] == a[k + 1]);
        }
        lemma_merge_uniq_is_filter(adf, bdf, Option::Some(a[0]), eq, ord);
        let pred3 = |z: T| crate::vec::no_match_in(z, bdf, eq);
        crate::vec::lemma_filter_first(a, pred);
        assert(!pred(a[0])) by {
            assert(eq(b[0], a[0]));
        }
        assert forall|k: int| 0 <= k < adf.len() implies pred(#[trigger] adf[k]) == pred3(
            adf[k],
        ) by {
            assert(adf[k] == a[k + 1]);
            if pred(a[k + 1]) {
                assert forall|m: int| 0 <= m < bdf.len() implies !eq(
                    #[trigger] bdf[m],
                    a[k + 1],
                ) by {
                    assert(bdf[m] == b[m + 1]);
                }
            }
            if pred3(a[k + 1]) && !pred(a[k + 1]) {
                let mm = choose|mm: int| 0 <= mm < b.len() && eq(b[mm], a[k + 1]);
                if mm > 0 {
                    assert(bdf[mm - 1] == b[mm]);
                    assert(!eq(bdf[mm - 1], a[k + 1]));
                    assert(false);
                } else {
                    // `b`'s head matches both `a[0]` and a later element of
                    // `a`, although those two are strictly ordered apart.
                    assert(eq(b[0], a[k + 1]));
                    assert(eq(a[0], b[0]));
                    assert(eq(a[0], a[k + 1]));
                    assert(ord(a[0], a[k + 1]));
                    assert(false);
                }
            }
        }
        crate::vec::lemma_filter_congruent(adf, pred, pred3);
    } else {
        let adf = a.drop_first();
        assert(sorted_strictly_by(adf, ord)) by {
            assert forall|i: int, j: int| 0 <= i < j < adf.len() implies ord(
                #[trigger] adf[i],
                #[trigger] adf[j],
            ) by {
                assert(adf[i] == a[i + 1] && adf[j] == a[j + 1]);
            }
        }
        assert forall|k: int| 0 <= k < adf.len() implies ord(a[0], #[trigger] adf[k]) by {
            assert(adf[k] == a[k + 1]);
        }
        lemma_merge_uniq_is_filter(adf, b, Option::Some(a[0]), eq, ord);
        assert(emit_ok(prev, a[0], eq)) by {
            match prev {
                Option::Some(p) => {
                    assert(ord(p, a[0]));
                }
                Option::None => {}
            }
        }
        crate::vec::lemma_filter_first(a, pred);
        assert(pred(a[0])) by {
            assert(ord(a[0], b[0]));
            assert forall|m: int| 0 <= m < b.len() implies !eq(#[trigger] b[m], a[0]) by {
                if m > 0 {
                    assert(ord(b[0], b[m]));
                    assert(ord(a[0], b[m]));
                    assert(!eq(a[0], b[m]));
                }
            }
        }
    }
}

/// Cross-validation of the two strategies: on inputs strictly sorted by
/// `ord` — hence already free of duplicates — the sorted merge sweep
/// returns exactly what the unordered difference returns.
pub proof fn lemma_sorted_uniq_agrees_with_unordered<T>(
    a: Seq<T>,
    b: Seq<T>,
    eq: spec_fn(T, T) -> bool,
    ord: spec_fn(T, T) -> bool,
)
    requires
        consistent_comparators(eq, ord),
        sorted_strictly_by(a, ord),
        sorted_strictly_by(b, ord),
    ensures
        merge_uniq(a, b, Option::None, eq, ord) == crate::vec::uniq_seq(a, b, eq, eq),
{
    lemma_merge_uniq_is_filter(a, b, Option::None, eq, ord);
    assert(crate::vec::pairwise_unrelated(a, eq)) by {
        assert forall|i: int, j: int| 0 <= i < j < a.len() implies !eq(
            #[trigger] a[i],
            #[trigger] a[j],
        ) by {
            assert(ord(a[i], a[j]));
        }
    }
    assert(crate::vec::pairwise_unrelated(b, eq)) by {
        assert forall|i: int, j: int| 0 <= i < j < b.len() implies !eq(
            #[trigger] b[i],
            #[trigger] b[j],
        ) by {
            assert(ord(b[i], b[j]));
        }
    }
    crate::vec::lemma_dedup_of_unrelated(a, eq);
    crate::vec::lemma_dedup_of_unrelated(b, eq);
    let pred = |z: T| crate::vec::no_match_in(z, b, eq);
    let predd = |z: T| crate::vec::no_match_in(z, crate::vec::dedup_seq(b, eq), eq);
    assert forall|k: int| 0 <= k < a.len() implies pred(#[trigger] a[k]) == predd(a[k]) by {
        assert(crate::vec::dedup_seq(b, eq) == b);
    }
    crate::vec::lemma_filter_congruent(a, pred, predd);
}

/// The comparator that the ascending-order operations bind: plain `<`.
fn less_comparator<T: PartialOrd>() -> (g: impl Fn(&T, &T) -> bool)
    ensures
        total_on::<T, _>(g),
        forall|x: &T, y: &T, b: bool| #[trigger] call_ensures(g, (x, y), b) ==> (
        T::obeys_partial_cmp_spec() ==> b == (x.partial_cmp_spec(y) == Some(
            core::cmp::Ordering::Less,
        ))),
{
    |x: &T, y: &T| -> (b: bool)
        ensures
            T::obeys_partial_cmp_spec() ==> b == (x.partial_cmp_spec(y) == Some(
                core::cmp::Ordering::Less,
            )),
        { x < y }
}

/// The comparator that the descending-order operations bind: plain `>`.
fn greater_comparator<T: PartialOrd>() -> (g: impl Fn(&T, &T) -> bool)
    ensures
        total_on::<T, _>(g),
        forall|x: &T, y: &T, b: bool| #[trigger] call_ensures(g, (x, y), b) ==> (
        T::obeys_partial_cmp_spec() ==> b == (x.partial_cmp_spec(y) == Some(
            core::cmp::Ordering::Greater,
        ))),
{
    |x: &T, y: &T| -> (b: bool)
        ensures
            T::obeys_partial_cmp_spec() ==> b == (x.partial_cmp_spec(y) == Some(
                core::cmp::Ordering::Greater,
            )),
        { x > y }
}

/// When `T` obeys its ordering specification, the `<` comparator decides
/// the strictly-less relation.
proof fn lemma_less_comparator_decides<T: PartialOrd>(g: impl Fn(&T, &T) -> bool)
    requires
        T::obeys_partial_cmp_spec(),
        forall|x: &T, y: &T, b: bool| #[trigger] call_ensures(g, (x, y), b) ==> (
        T::obeys_partial_cmp_spec() ==> b == (x.partial_cmp_spec(y) == Some(
            core::cmp::Ordering::Less,
        ))),
    ensures
        decides(g, lt_rel::<T>()),
{
    assert forall|x: &T, y: &T, b: bool| #[trigger] call_ensures(g, (x, y), b) implies b == (
    lt_rel::<T>())(*x, *y) by {}
}

/// When `T` obeys its ordering specification, the `>` comparator decides
/// the strictly-greater relation.
proof fn lemma_greater_comparator_decides<T: PartialOrd>(g: impl Fn(&T, &T) -> bool)
    requires
        T::obeys_partial_cmp_spec(),
        forall|x: &T, y: &T, b: bool| #[trigger] call_ensures(g, (x, y), b) ==> (
        T::obeys_partial_cmp_spec() ==> b == (x.partial_cmp_spec(y) == Some(
            core::cmp::Ordering::Greater,
        ))),
    ensures
        decides(g, gt_rel::<T>()),
{
    assert forall|x: &T, y: &T, b: bool| #[trigger] call_ensures(g, (x, y), b) implies b == (
    gt_rel::<T>())(*x, *y) by {}
}

} // verus!
