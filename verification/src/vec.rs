//! Set-style operations on vectors with no assumption on element order:
//! deduplication, uniqueness testing, asymmetric difference, intersection
//! and union, each with a default-equality entry point and a `_via` variant
//! taking a caller-supplied comparator.
use vstd::prelude::*;

verus! {

use vstd::std_specs::cmp::PartialEqSpec;

/// An executable comparator `f` decides the mathematical relation `r` when
/// every result it can return agrees with `r` on the pair it was given.
pub open spec fn decides<T, F: Fn(&T, &T) -> bool>(f: F, r: spec_fn(T, T) -> bool) -> bool {
    forall|x: &T, y: &T, b: bool| #[trigger] call_ensures(f, (x, y), b) ==> b == r(*x, *y)
}

/// An executable comparator that may be called on any pair of elements.
pub open spec fn total_on<T, F: Fn(&T, &T) -> bool>(f: F) -> bool {
    forall|x: &T, y: &T| #[trigger] call_requires(f, (x, y))
}

/// The relation that `==` computes when `T` obeys its equality specification.
pub open spec fn eq_rel<T: PartialEq>() -> spec_fn(T, T) -> bool {
    |x: T, y: T| x.eq_spec(&y)
}

/// `s[j]` opens its class: no earlier element of `s` is related to it.
pub open spec fn first_of_class<T>(s: Seq<T>, eq: spec_fn(T, T) -> bool, j: int) -> bool {
    forall|i: int| 0 <= i < j ==> !eq(s[i], s[j])
}

/// The subsequence of `s` that keeps only the first occurrence of each
/// equivalence class of `eq`, in the order the classes first appear.
pub open spec fn dedup_seq<T>(s: Seq<T>, eq: spec_fn(T, T) -> bool) -> Seq<T>
    decreases s.len(),
{
    if s.len() == 0 {
        Seq::empty()
    } else if first_of_class(s, eq, s.len() - 1) {
        dedup_seq(s.drop_last(), eq).push(s.last())
    } else {
        dedup_seq(s.drop_last(), eq)
    }
}

/// No element of `s` bears `m` to `x`; `m` is applied as `m(member of s, x)`.
pub open spec fn no_match_in<T>(x: T, s: Seq<T>, m: spec_fn(T, T) -> bool) -> bool {
    forall|k: int| 0 <= k < s.len() ==> !m(s[k], x)
}

/// Some element of `s` is accepted against `x`; `m` is applied as `m(x, member of s)`.
pub open spec fn has_match_in<T>(x: T, s: Seq<T>, m: spec_fn(T, T) -> bool) -> bool {
    exists|k: int| 0 <= k < s.len() && m(x, s[k])
}

/// Elements of `a`'s deduplication with no `r`-counterpart anywhere in `b`'s
/// deduplication; `r` is applied as `r(member of b, member of a)`.
pub open spec fn uniq_seq<T>(
    a: Seq<T>,
    b: Seq<T>,
    eq: spec_fn(T, T) -> bool,
    r: spec_fn(T, T) -> bool,
) -> Seq<T> {
    dedup_seq(a, eq).filter(|z: T| no_match_in(z, dedup_seq(b, eq), r))
}

/// Elements of `a`'s deduplication accepted against some element of `b`
/// (not deduplicated); `m` is applied as `m(member of a, member of b)`.
pub open spec fn intersect_seq<T>(
    a: Seq<T>,
    b: Seq<T>,
    eq: spec_fn(T, T) -> bool,
    m: spec_fn(T, T) -> bool,
) -> Seq<T> {
    dedup_seq(a, eq).filter(|z: T| has_match_in(z, b, m))
}

/// No two distinct positions of `s` are related by `r`, reading `r` as
/// `r(earlier element, later element)`.
pub open spec fn pairwise_unrelated<T>(s: Seq<T>, r: spec_fn(T, T) -> bool) -> bool {
    forall|i: int, j: int| 0 <= i < j < s.len() ==> !r(s[i], s[j])
}

/// `s` repeated `n` whole times, one copy after the other.
pub open spec fn repeat_seq<T>(s: Seq<T>, n: int) -> Seq<T>
    decreases n,
{
    if n <= 0 {
        Seq::empty()
    } else {
        repeat_seq(s, n - 1) + s
    }
}

/// Several different methods for getting, or evaluating, uniqueness.
pub trait Uniq<T: PartialEq + Copy>: Sized + View<V = Seq<T>> {
    /// Values of `self`'s deduplication that have no equal counterpart in
    /// `other`'s deduplication.
    fn uniq(&self, other: Self) -> (out: Self)
        ensures
            T::obeys_eq_spec() ==> out@ == uniq_seq(self@, other@, eq_rel::<T>(), eq_rel::<T>()),
    ;

    /// Removes duplicates, keeping the first occurrence of each value.
    fn unique(&self) -> (out: Self)
        ensures
            T::obeys_eq_spec() ==> out@ == dedup_seq(self@, eq_rel::<T>()),
    ;

    /// Whether no value occurs at two distinct positions.
    fn is_unique(&self) -> (res: bool)
        ensures
            T::obeys_eq_spec() ==> res == pairwise_unrelated(self@, eq_rel::<T>()),
    ;

    /// Values of `self`'s deduplication with no counterpart in `other`'s
    /// deduplication, where a counterpart `x` of `other` is one with
    /// `f(&x, &candidate)`; deduplication itself uses `==`.
    fn uniq_via<F: Fn(&T, &T) -> bool>(&self, other: Self, f: F) -> (out: Self)
        requires
            total_on::<T, F>(f),
        ensures
            forall|r: spec_fn(T, T) -> bool| #[trigger] decides(f, r) ==> (T::obeys_eq_spec()
                ==> out@ == uniq_seq(self@, other@, eq_rel::<T>(), r)),
    ;

    /// Removes duplicates as defined by the comparator `f`, keeping each
    /// element that no earlier element is related to by `f`.
    fn unique_via<F: Fn(&T, &T) -> bool>(&self, f: F) -> (out: Self)
        requires
            total_on::<T, F>(f),
        ensures
            forall|r: spec_fn(T, T) -> bool| #[trigger] decides(f, r) ==> out@ == dedup_seq(
                self@,
                r,
            ),
    ;

    /// Whether no two distinct positions hold elements related by `f`.
    fn is_unique_via<F: Fn(&T, &T) -> bool>(&self, f: F) -> (res: bool)
        requires
            total_on::<T, F>(f),
        ensures
            forall|r: spec_fn(T, T) -> bool| #[trigger] decides(f, r) ==> res
                == pairwise_unrelated(self@, r),
    ;
}

impl<T: PartialEq + Copy> Uniq<T> for Vec<T> {
    fn uniq(&self, other: Vec<T>) -> (out: Vec<T>) {
        let g = equality_comparator::<T>();
        let out = self.uniq_via(other, g);
        proof {
            if T::obeys_eq_spec() {
                lemma_equality_comparator_decides::<T>(g);
            }
        }
        out
    }

    fn unique(&self) -> (out: Vec<T>) {
        let g = equality_comparator::<T>();
        let out = self.unique_via(g);
        proof {
            if T::obeys_eq_spec() {
                lemma_equality_comparator_decides::<T>(g);
            }
        }
        out
    }

    fn is_unique(&self) -> (res: bool) {
        let g = equality_comparator::<T>();
        let res = self.is_unique_via(g);
        proof {
            if T::obeys_eq_spec() {
                lemma_equality_comparator_decides::<T>(g);
            }
        }
        res
    }

    fn uniq_via<F: Fn(&T, &T) -> bool>(&self, other: Vec<T>, f: F) -> (out: Vec<T>) {
        let au = self.unique();
        let bu = other.unique();
        let mut out: Vec<T> = Vec::new();
        let n = au.len();
        for idx in 0..n
            invariant
                n == au@.len(),
                total_on::<T, F>(f),
                T::obeys_eq_spec() ==> au@ == dedup_seq(self@, eq_rel::<T>()),
                T::obeys_eq_spec() ==> bu@ == dedup_seq(other@, eq_rel::<T>()),
                forall|r: spec_fn(T, T) -> bool| #[trigger] decides(f, r) ==> out@ == au@.take(
                    idx as int,
                ).filter(|z: T| no_match_in(z, bu@, r)),
        {
            let m = bu.len();
            let mut found = false;
            for k in 0..m
                invariant
                    idx < n,
                    n == au@.len(),
                    m == bu@.len(),
                    total_on::<T, F>(f),
                    forall|r: spec_fn(T, T) -> bool| #[trigger] decides(f, r) ==> (found
                        <==> exists|k2: int| 0 <= k2 < k && r(bu@[k2], au@[idx as int])),
            {
                let b = f(&bu[k], &au[idx]);
                proof {
                    assert forall|r: spec_fn(T, T) -> bool| #[trigger] decides(f, r) implies ((b
                        || found) <==> exists|k2: int|
                        0 <= k2 < k + 1 && r(bu@[k2], au@[idx as int])) by {
                        if b {
                            assert(r(bu@[k as int], au@[idx as int]));
                        } else if found {
                            let k2 = choose|k2: int| 0 <= k2 < k && r(bu@[k2], au@[idx as int]);
                            assert(0 <= k2 < k + 1 && r(bu@[k2], au@[idx as int]));
                        } else if exists|k2: int| 0 <= k2 < k + 1 && r(bu@[k2], au@[idx as int]) {
                            let k2 = choose|k2: int|
                                0 <= k2 < k + 1 && r(bu@[k2], au@[idx as int]);
                            assert(!r(bu@[k as int], au@[idx as int]));
                            assert(k2 < k);
                        }
                    }
                }
                if b {
                    found = true;
                }
            }
            if !found {
                out.push(au[idx]);
            }
            proof {
                assert(au@.take(idx as int + 1) =~= au@.take(idx as int).push(au@[idx as int]));
                assert forall|r: spec_fn(T, T) -> bool| #[trigger] decides(f, r) implies out@
                    == au@.take(idx as int + 1).filter(|z: T| no_match_in(z, bu@, r)) by {
                    let pred = |z: T| no_match_in(z, bu@, r);
                    au@.take(idx as int).lemma_filter_push(au@[idx as int], pred);
                    if found {
                        let k2 = choose|k2: int|
                            0 <= k2 < bu@.len() && r(bu@[k2], au@[idx as int]);
                        assert(!pred(au@[idx as int]));
                    } else {
                        assert(pred(au@[idx as int]));
                    }
                }
            }
        }
        proof {
            assert(au@.take(n as int) =~= au@);
        }
        out
    }

    fn unique_via<F: Fn(&T, &T) -> bool>(&self, f: F) -> (out: Vec<T>) {
        let mut out: Vec<T> = Vec::new();
        let n = self.len();
        for j in 0..n
            invariant
                n == self@.len(),
                total_on::<T, F>(f),
                forall|r: spec_fn(T, T) -> bool| #[trigger] decides(f, r) ==> out@ == dedup_seq(
                    self@.take(j as int),
                    r,
                ),
        {
            let mut dup = false;
            for i in 0..j
                invariant
                    j < n,
                    n == self@.len(),
                    total_on::<T, F>(f),
                    forall|r: spec_fn(T, T) -> bool| #[trigger] decides(f, r) ==> (dup
                        <==> exists|k: int| 0 <= k < i && r(self@[k], self@[j as int])),
            {
                let b = f(&self[i], &self[j]);
                proof {
                    assert forall|r: spec_fn(T, T) -> bool| #[trigger] decides(f, r) implies ((b
                        || dup) <==> exists|k: int|
                        0 <= k < i + 1 && r(self@[k], self@[j as int])) by {
                        if b {
                            assert(r(self@[i as int], self@[j as int]));
                        } else if dup {
                            let k = choose|k: int| 0 <= k < i && r(self@[k], self@[j as int]);
                            assert(0 <= k < i + 1 && r(self@[k], self@[j as int]));
                        } else if exists|k: int| 0 <= k < i + 1 && r(self@[k], self@[j as int]) {
                            let k = choose|k: int| 0 <= k < i + 1 && r(self@[k], self@[j as int]);
                            assert(!r(self@[i as int], self@[j as int]));
                            assert(k < i);
                        }
                    }
                }
                if b {
                    dup = true;
                }
            }
            if !dup {
                out.push(self[j]);
            }
            proof {
                assert(self@.take(j as int + 1).drop_last() =~= self@.take(j as int));
                assert(self@.take(j as int + 1).last() == self@[j as int]);
                assert forall|r: spec_fn(T, T) -> bool| #[trigger] decides(f, r) implies out@
                    == dedup_seq(self@.take(j as int + 1), r) by {
                    if dup {
                        let k = choose|k: int| 0 <= k < j && r(self@[k], self@[j as int]);
                        assert(self@.take(j as int + 1)[k] == self@[k]);
                        assert(!first_of_class(self@.take(j as int + 1), r, j as int));
                    } else {
                        assert forall|i2: int| 0 <= i2 < j implies !r(
                            #[trigger] self@.take(j as int + 1)[i2],
                            self@.take(j as int + 1)[j as int],
                        ) by {
                            assert(self@.take(j as int + 1)[i2] == self@[i2]);
                        }
                        assert(first_of_class(self@.take(j as int + 1), r, j as int));
                    }
                }
            }
        }
        proof {
            assert(self@.take(n as int) =~= self@);
        }
        out
    }

    fn is_unique_via<F: Fn(&T, &T) -> bool>(&self, f: F) -> (res: bool) {
        let n = self.len();
        for x in 0..n
            invariant
                n == self@.len(),
                total_on::<T, F>(f),
                forall|r: spec_fn(T, T) -> bool| #[trigger] decides(f, r) ==> (forall|
                    i: int,
                    j: int,
                |
                    0 <= i < j < n && i < x ==> !r(self@[i], self@[j])),
        {
            for y in (x + 1)..n
                invariant
                    x < n,
                    n == self@.len(),
                    total_on::<T, F>(f),
                    forall|r: spec_fn(T, T) -> bool| #[trigger] decides(f, r) ==> (forall|
                        i: int,
                        j: int,
                    |
                        0 <= i < j < n && i < x ==> !r(self@[i], self@[j])),
                    forall|r: spec_fn(T, T) -> bool| #[trigger] decides(f, r) ==> (forall|j: int|
                        x < j < y ==> !r(self@[x as int], self@[j])),
            {
                let b = f(&self[x], &self[y]);
                if b {
                    proof {
                        assert forall|r: spec_fn(T, T) -> bool| #[trigger] decides(f, r) implies
                            !pairwise_unrelated(self@, r) by {
                            assert(r(self@[x as int], self@[y as int]));
                        }
                    }
                    return false;
                }
                proof {
                    assert forall|r: spec_fn(T, T) -> bool| #[trigger] decides(f, r) implies
                        (forall|j: int| x < j < y + 1 ==> !r(self@[x as int], self@[j])) by {
                        assert(!r(self@[x as int], self@[y as int]));
                    }
                }
            }
        }
        true
    }
}

/// The comparator that the default-equality operations bind: plain `==`.
pub(crate) fn equality_comparator<T: PartialEq>() -> (g: impl Fn(&T, &T) -> bool)
    ensures
        total_on::<T, _>(g),
        forall|x: &T, y: &T, b: bool| #[trigger] call_ensures(g, (x, y), b) ==> (
        T::obeys_eq_spec() ==> b == x.eq_spec(y)),
{
    |x: &T, y: &T| -> (b: bool)
        ensures
            T::obeys_eq_spec() ==> b == x.eq_spec(y),
        { x == y }
}

/// Removes, or Adds, the first element of self.
pub trait Shift<T>: Sized + View<V = Seq<T>> {
    /// Removes and returns the first item, or `None` when there is none.
    fn shift(&mut self) -> (r: Option<T>)
        ensures
            old(self)@.len() == 0 ==> r is None && final(self)@ == old(self)@,
            old(self)@.len() > 0 ==> r == Some(old(self)@[0]) && final(self)@ == old(
                self,
            )@.drop_first(),
    ;

    /// Inserts the item at the front.
    fn unshift(&mut self, other: T)
        ensures
            final(self)@ == seq![other] + old(self)@,
    ;
}

impl<T: PartialEq> Shift<T> for Vec<T> {
    fn shift(&mut self) -> (r: Option<T>) {
        if self.len() == 0 {
            return None;
        }
        let e = self.remove(0);
        proof {
            assert(old(self)@.remove(0) =~= old(self)@.drop_first());
        }
        Some(e)
    }

    fn unshift(&mut self, other: T) {
        self.insert(0, other);
        proof {
            assert(old(self)@.insert(0, other) =~= seq![other] + old(self)@);
        }
    }
}

/// Set intersection: the values of `self`'s deduplication that some element
/// of the other vector is accepted against, in `self`'s order.
pub trait Intersect<T: PartialEq + Copy>: Sized + View<V = Seq<T>> {
    /// Intersection under plain equality.
    fn intersect(&self, other: Self) -> (out: Self)
        ensures
            T::obeys_eq_spec() ==> out@ == intersect_seq(
                self@,
                other@,
                eq_rel::<T>(),
                eq_rel::<T>(),
            ),
    ;

    /// Intersection under the comparator `validator`, applied as
    /// `validator(&element of self, &element of other)`; deduplication of
    /// `self` uses `==`.
    fn intersect_if<F: Fn(&T, &T) -> bool>(&self, other: Self, validator: F) -> (out: Self)
        requires
            total_on::<T, F>(validator),
        ensures
            forall|r: spec_fn(T, T) -> bool| #[trigger] decides(validator, r) ==> (
            T::obeys_eq_spec() ==> out@ == intersect_seq(self@, other@, eq_rel::<T>(), r)),
    ;
}

impl<T: PartialEq + Copy> Intersect<T> for Vec<T> {
    fn intersect(&self, other: Vec<T>) -> (out: Vec<T>) {
        let g = equality_comparator::<T>();
        let out = self.intersect_if(other, g);
        proof {
            if T::obeys_eq_spec() {
                lemma_equality_comparator_decides::<T>(g);
            }
        }
        out
    }

    fn intersect_if<F: Fn(&T, &T) -> bool>(&self, other: Vec<T>, validator: F) -> (out: Vec<T>) {
        let au = self.unique();
        let mut out: Vec<T> = Vec::new();
        let n = au.len();
        let m = other.len();
        for idx in 0..n
            invariant
                n == au@.len(),
                m == other@.len(),
                total_on::<T, F>(validator),
                T::obeys_eq_spec() ==> au@ == dedup_seq(self@, eq_rel::<T>()),
                forall|r: spec_fn(T, T) -> bool| #[trigger] decides(validator, r) ==> out@
                    == au@.take(idx as int).filter(|z: T| has_match_in(z, other@, r)),
        {
            let mut found = false;
            for k in 0..m
                invariant
                    idx < n,
                    n == au@.len(),
                    m == other@.len(),
                    total_on::<T, F>(validator),
                    forall|r: spec_fn(T, T) -> bool| #[trigger] decides(validator, r) ==> (found
                        <==> exists|k2: int| 0 <= k2 < k && r(au@[idx as int], other@[k2])),
            {
                let b = validator(&au[idx], &other[k]);
                proof {
                    assert forall|r: spec_fn(T, T) -> bool| #[trigger] decides(
                        validator,
                        r,
                    ) implies ((b || found) <==> exists|k2: int|
                        0 <= k2 < k + 1 && r(au@[idx as int], other@[k2])) by {
                        if b {
                            assert(r(au@[idx as int], other@[k as int]));
                        } else if found {
                            let k2 = choose|k2: int| 0 <= k2 < k && r(au@[idx as int], other@[k2]);
                            assert(0 <= k2 < k + 1 && r(au@[idx as int], other@[k2]));
                        } else if exists|k2: int| 0 <= k2 < k + 1 && r(au@[idx as int], other@[k2]) {
                            let k2 = choose|k2: int|
                                0 <= k2 < k + 1 && r(au@[idx as int], other@[k2]);
                            assert(!r(au@[idx as int], other@[k as int]));
                            assert(k2 < k);
                        }
                    }
                }
                if b {
                    found = true;
                }
            }
            if found {
                out.push(au[idx]);
            }
            proof {
                assert(au@.take(idx as int + 1) =~= au@.take(idx as int).push(au@[idx as int]));
                assert forall|r: spec_fn(T, T) -> bool| #[trigger] decides(validator, r) implies
                    out@ == au@.take(idx as int + 1).filter(|z: T| has_match_in(z, other@, r)) by {
                    let pred = |z: T| has_match_in(z, other@, r);
                    au@.take(idx as int).lemma_filter_push(au@[idx as int], pred);
                    if found {
                        assert(pred(au@[idx as int]));
                    } else {
                        assert(!pred(au@[idx as int]));
                    }
                }
            }
        }
        proof {
            assert(au@.take(n as int) =~= au@);
        }
        out
    }
}

/// Expand and duplicate the vector's content the given number of whole times.
pub trait Times<T: Copy>: Sized + View<V = Seq<T>> {
    /// The vector's elements cycled through `qty` whole repetitions.
    fn times(&self, qty: i32) -> (out: Self)
        requires
            0 <= qty,
        ensures
            out@ == repeat_seq(self@, qty as int),
    ;
}

impl<T: Copy> Times<T> for Vec<T> {
    fn times(&self, qty: i32) -> (out: Vec<T>) {
        let mut out: Vec<T> = Vec::new();
        let n = self.len();
        for rep in 0..qty
            invariant
                n == self@.len(),
                out@ == repeat_seq(self@, rep as int),
        {
            for i in 0..n
                invariant
                    n == self@.len(),
                    out@ == repeat_seq(self@, rep as int) + self@.take(i as int),
            {
                out.push(self[i]);
                proof {
                    assert(self@.take(i as int + 1) =~= self@.take(i as int).push(self@[i as int]));
                    assert(repeat_seq(self@, rep as int) + self@.take(i as int + 1) =~= (repeat_seq(
                        self@,
                        rep as int,
                    ) + self@.take(i as int)).push(self@[i as int]));
                }
            }
            proof {
                assert(self@.take(n as int) =~= self@);
            }
        }
        out
    }
}

/// Create a union of two vectors: the concatenation of `self` and `other`
/// with duplicates removed, preserving first-encounter order.
pub trait Union<T: PartialEq + Copy>: Sized + View<V = Seq<T>> {
    /// The deduplication of `self` followed by `other`.
    fn union(&self, other: Self) -> (out: Self)
        ensures
            T::obeys_eq_spec() ==> out@ == dedup_seq(self@ + other@, eq_rel::<T>()),
    ;
}

impl<T: PartialEq + Copy> Union<T> for Vec<T> {
    fn union(&self, other: Vec<T>) -> (out: Vec<T>) {
        let mut stack: Vec<T> = Vec::new();
        let n = self.len();
        let m = other.len();
        for i in 0..n
            invariant
                n == self@.len(),
                stack@ == self@.take(i as int),
        {
            stack.push(self[i]);
            proof {
                assert(self@.take(i as int + 1) =~= self@.take(i as int).push(self@[i as int]));
            }
        }
        proof {
            assert(self@.take(n as int) =~= self@);
        }
        for j in 0..m
            invariant
                m == other@.len(),
                stack@ == self@ + other@.take(j as int),
        {
            stack.push(other[j]);
            proof {
                assert(self@ + other@.take(j as int + 1) =~= (self@ + other@.take(
                    j as int,
                )).push(other@[j as int]));
            }
        }
        proof {
            assert(self@ + other@.take(m as int) =~= self@ + other@);
        }
        stack.unique()
    }
}

/// `s` could be the text that displaying `x` produces.
pub open spec fn displays<T: core::fmt::Display>(x: T, s: String) -> bool {
    vstd::string::to_string_from_display_ensures(&x, s)
}

/// The pieces laid end to end with `sep` between each neighbouring pair.
pub open spec fn join_parts(parts: Seq<Seq<char>>, sep: Seq<char>) -> Seq<char>
    decreases parts.len(),
{
    if parts.len() == 0 {
        Seq::empty()
    } else if parts.len() == 1 {
        parts[0]
    } else {
        join_parts(parts.drop_last(), sep) + sep + parts.last()
    }
}

/// Join a vector of displayable things to a `String` with a given delimiter.
pub trait Join<T: core::fmt::Display>: View<V = Seq<T>> {
    /// Each element's text, with `joiner` between each neighbouring pair.
    fn join(&self, joiner: &'static str) -> (r: String)
        ensures
            exists|parts: Seq<String>|
                {
                    &&& parts.len() == self@.len()
                    &&& forall|i: int|
                        0 <= i < parts.len() ==> #[trigger] displays(self@[i], parts[i])
                    &&& r@ == join_parts(parts.map_values(|p: String| p@), joiner@)
                },
    ;
}

impl<T: core::fmt::Display> Join<T> for Vec<T> {
    fn join(&self, joiner: &'static str) -> (r: String) {
        let mut out = String::new();
        let ghost mut parts: Seq<String> = Seq::empty();
        let n = self.len();
        for x in 0..n
            invariant
                n == self@.len(),
                parts.len() == x,
                forall|i: int| 0 <= i < x ==> #[trigger] displays(self@[i], parts[i]),
                x == 0 ==> out@ == Seq::<char>::empty(),
                0 < x < n ==> out@ == join_parts(parts.map_values(|p: String| p@), joiner@)
                    + joiner@,
                0 < x == n ==> out@ == join_parts(parts.map_values(|p: String| p@), joiner@),
        {
            let piece = (&self[x]).to_string();
            out.append(piece.as_str());
            proof {
                let old_views = parts.map_values(|p: String| p@);
                parts = parts.push(piece);
                let views = parts.map_values(|p: String| p@);
                assert(views.drop_last() =~= old_views);
                assert(views.last() == piece@);
                if x > 0 {
                    assert(views.len() >= 2);
                    assert(out@ == join_parts(views, joiner@));
                }
            }
            if x < n - 1 {
                out.append(joiner);
            }
        }
        proof {
            if n == 0 {
                assert(parts.map_values(|p: String| p@).len() == 0);
            }
        }
        out
    }
}

/// `m` lists, strictly in order, a position of `y` for every position of
/// `x`, holding the same element there.
pub open spec fn is_index_map<T>(m: Seq<int>, x: Seq<T>, y: Seq<T>) -> bool {
    &&& m.len() == x.len()
    &&& forall|p: int| 0 <= p < m.len() ==> 0 <= #[trigger] m[p] < y.len() && x[p] == y[m[p]]
    &&& forall|p: int, q: int| 0 <= p < q < m.len() ==> m[p] < m[q]
}

/// `x` is a subsequence of `y`: its elements occur in `y` in the same order.
pub open spec fn is_subseq_of<T>(x: Seq<T>, y: Seq<T>) -> bool {
    exists|m: Seq<int>| is_index_map(m, x, y)
}

/// Deduplication preserves order: what `unique` keeps is a subsequence of
/// its input.
pub proof fn lemma_unique_subsequence<T>(s: Seq<T>, eq: spec_fn(T, T) -> bool)
    ensures
        is_subseq_of(dedup_seq(s, eq), s),
    decreases s.len(),
{
    if s.len() == 0 {
        let m = Seq::<int>::empty();
        assert(is_index_map(m, dedup_seq(s, eq), s));
    } else {
        let t = s.drop_last();
        lemma_unique_subsequence(t, eq);
        let m0 = choose|m0: Seq<int>| is_index_map(m0, dedup_seq(t, eq), t);
        if first_of_class(s, eq, s.len() - 1) {
            let m = m0.push(s.len() - 1);
            assert forall|p: int| 0 <= p < m.len() implies 0 <= #[trigger] m[p] < s.len()
                && dedup_seq(s, eq)[p] == s[m[p]] by {
            if p < m0.len() {
                    assert(dedup_seq(t, eq)[p] == t[m0[p]]);
                    assert(t[m0[p]] == s[m0[p]]);
                }
            }
            assert(is_index_map(m, dedup_seq(s, eq), s));
        } else {
            assert forall|p: int| 0 <= p < m0.len() implies 0 <= #[trigger] m0[p] < s.len()
                && dedup_seq(s, eq)[p] == s[m0[p]] by {
                assert(dedup_seq(t, eq)[p] == t[m0[p]]);
                assert(t[m0[p]] == s[m0[p]]);
            }
            assert(is_index_map(m0, dedup_seq(s, eq), s));
        }
    }
}

/// A subsequence of a pairwise-unrelated sequence is pairwise unrelated.
pub proof fn lemma_subseq_preserves_unrelated<T>(x: Seq<T>, y: Seq<T>, r: spec_fn(T, T) -> bool)
    requires
        is_subseq_of(x, y),
        pairwise_unrelated(y, r),
    ensures
        pairwise_unrelated(x, r),
{
    let m = choose|m: Seq<int>| is_index_map(m, x, y);
    assert forall|i: int, j: int| 0 <= i < j < x.len() implies !r(x[i], x[j]) by {
        assert(0 <= m[i] < y.len() && x[i] == y[m[i]]);
        assert(0 <= m[j] < y.len() && x[j] == y[m[j]]);
        assert(m[i] < m[j]);
    }
}

/// What `unique` returns holds no two related elements: deduplication
/// leaves a sequence on which `is_unique` is true.
pub proof fn lemma_unique_is_unique<T>(s: Seq<T>, eq: spec_fn(T, T) -> bool)
    ensures
        pairwise_unrelated(dedup_seq(s, eq), eq),
    decreases s.len(),
{
    if s.len() > 0 {
        let t = s.drop_last();
        lemma_unique_is_unique(t, eq);
        if first_of_class(s, eq, s.len() - 1) {
            let d0 = dedup_seq(t, eq);
            let d = d0.push(s.last());
            lemma_unique_subsequence(t, eq);
            let m0 = choose|m0: Seq<int>| is_index_map(m0, d0, t);
            assert forall|i: int, j: int| 0 <= i < j < d.len() implies !eq(
                #[trigger] d[i],
                #[trigger] d[j],
            ) by {
                if j < d0.len() {
                    assert(d[i] == d0[i] && d[j] == d0[j]);
                } else {
                    assert(d[j] == s.last());
                    assert(d[i] == d0[i]);
                    assert(d0[i] == t[m0[i]]);
                    assert(t[m0[i]] == s[m0[i]]);
                    assert(!eq(s[m0[i]], s[s.len() - 1]));
                }
            }
            assert(pairwise_unrelated(d, eq));
        }
    }
}

/// Deduplicating a sequence that holds no two related elements returns it
/// unchanged.
pub proof fn lemma_dedup_of_unrelated<T>(u: Seq<T>, eq: spec_fn(T, T) -> bool)
    requires
        pairwise_unrelated(u, eq),
    ensures
        dedup_seq(u, eq) == u,
    decreases u.len(),
{
    if u.len() > 0 {
        let t = u.drop_last();
        assert(pairwise_unrelated(t, eq)) by {
            assert forall|i: int, j: int| 0 <= i < j < t.len() implies !eq(
                #[trigger] t[i],
                #[trigger] t[j],
            ) by {
                assert(t[i] == u[i] && t[j] == u[j]);
            }
        }
        lemma_dedup_of_unrelated(t, eq);
        assert(first_of_class(u, eq, u.len() - 1));
        assert(t.push(u.last()) =~= u);
    }
}

/// Deduplication is idempotent: applying `unique` to its own result
/// changes nothing.
pub proof fn lemma_unique_idempotent<T>(s: Seq<T>, eq: spec_fn(T, T) -> bool)
    ensures
        dedup_seq(dedup_seq(s, eq), eq) == dedup_seq(s, eq),
{
    lemma_unique_is_unique(s, eq);
    lemma_dedup_of_unrelated(dedup_seq(s, eq), eq);
}

/// What `filter` keeps is a subsequence of its input.
pub proof fn lemma_filter_subseq<T>(s: Seq<T>, pred: spec_fn(T) -> bool)
    ensures
        is_subseq_of(s.filter(pred), s),
    decreases s.len(),
{
    reveal(Seq::filter);
    if s.len() == 0 {
        let m = Seq::<int>::empty();
        assert(is_index_map(m, s.filter(pred), s));
    } else {
        let t = s.drop_last();
        lemma_filter_subseq(t, pred);
        let m0 = choose|m0: Seq<int>| is_index_map(m0, t.filter(pred), t);
        if pred(s.last()) {
            let m = m0.push(s.len() - 1);
            assert forall|p: int| 0 <= p < m.len() implies 0 <= #[trigger] m[p] < s.len()
                && s.filter(pred)[p] == s[m[p]] by {
                if p < m0.len() {
                    assert(t.filter(pred)[p] == t[m0[p]]);
                    assert(t[m0[p]] == s[m0[p]]);
                }
            }
            assert(is_index_map(m, s.filter(pred), s));
        } else {
            assert forall|p: int| 0 <= p < m0.len() implies 0 <= #[trigger] m0[p] < s.len()
                && s.filter(pred)[p] == s[m0[p]] by {
                assert(t.filter(pred)[p] == t[m0[p]]);
                assert(t[m0[p]] == s[m0[p]]);
            }
            assert(is_index_map(m0, s.filter(pred), s));
        }
    }
}

/// `filter` peels off the head: the head stays exactly when the predicate
/// accepts it, and the rest is the filtered tail.
pub proof fn lemma_filter_first<T>(s: Seq<T>, pred: spec_fn(T) -> bool)
    requires
        s.len() > 0,
    ensures
        s.filter(pred) == (if pred(s[0]) {
            seq![s[0]]
        } else {
            Seq::<T>::empty()
        }) + s.drop_first().filter(pred),
    decreases s.len(),
{
    reveal(Seq::filter);
    let head: Seq<T> = if pred(s[0]) {
        seq![s[0]]
    } else {
        Seq::<T>::empty()
    };
    if s.len() == 1 {
        assert(s.drop_last() =~= Seq::<T>::empty());
        assert(s.drop_first() =~= Seq::<T>::empty());
        assert(Seq::<T>::empty().filter(pred) == Seq::<T>::empty());
        assert(s.last() == s[0]);
        if pred(s[0]) {
            assert(s.filter(pred) == Seq::<T>::empty().push(s[0]));
            assert(Seq::<T>::empty().push(s[0]) =~= head + Seq::<T>::empty());
        } else {
            assert(s.filter(pred) =~= head + Seq::<T>::empty());
        }
    } else {
        let dl = s.drop_last();
        let sdf = s.drop_first();
        lemma_filter_first(dl, pred);
        assert(dl[0] == s[0]);
        assert(dl.drop_first() =~= sdf.drop_last());
        assert(sdf.last() == s.last());
        if pred(s.last()) {
            assert(s.filter(pred) == dl.filter(pred).push(s.last()));
            assert(sdf.filter(pred) == sdf.drop_last().filter(pred).push(s.last()));
            assert((head + sdf.drop_last().filter(pred)).push(s.last()) =~= head + sdf.drop_last(
            ).filter(pred).push(s.last()));
        } else {
            assert(s.filter(pred) == dl.filter(pred));
            assert(sdf.filter(pred) == sdf.drop_last().filter(pred));
        }
    }
}

/// Two predicates that agree on every element of `s` filter `s` alike.
pub proof fn lemma_filter_congruent<T>(s: Seq<T>, p1: spec_fn(T) -> bool, p2: spec_fn(T) -> bool)
    requires
        forall|k: int| 0 <= k < s.len() ==> p1(#[trigger] s[k]) == p2(s[k]),
    ensures
        s.filter(p1) == s.filter(p2),
    decreases s.len(),
{
    reveal(Seq::filter);
    if s.len() > 0 {
        let dl = s.drop_last();
        assert forall|k: int| 0 <= k < dl.len() implies p1(#[trigger] dl[k]) == p2(dl[k]) by {
            assert(dl[k] == s[k]);
        }
        lemma_filter_congruent(dl, p1, p2);
        assert(s.last() == s[s.len() - 1]);
        assert(p1(s.last()) == p2(s.last()));
    }
}

/// An intersection holds at most one member of each equivalence class, even
/// when the first vector holds duplicates, and keeps the order of the first
/// vector's deduplication.
pub proof fn lemma_intersect_unique_and_ordered<T>(
    a: Seq<T>,
    b: Seq<T>,
    eq: spec_fn(T, T) -> bool,
    m: spec_fn(T, T) -> bool,
)
    ensures
        pairwise_unrelated(intersect_seq(a, b, eq, m), eq),
        is_subseq_of(intersect_seq(a, b, eq, m), dedup_seq(a, eq)),
{
    lemma_unique_is_unique(a, eq);
    lemma_filter_subseq(dedup_seq(a, eq), |z: T| has_match_in(z, b, m));
    lemma_subseq_preserves_unrelated(intersect_seq(a, b, eq, m), dedup_seq(a, eq), eq);
}

/// When `r` is an equivalence, a value has an `r`-equivalent in
/// `uniq(a, b)` exactly when it has one in `a`'s deduplication and none in
/// `b`'s deduplication.
pub proof fn lemma_uniq_membership<T>(a: Seq<T>, b: Seq<T>, r: spec_fn(T, T) -> bool, x: T)
    requires
        vstd::relations::symmetric(r),
        vstd::relations::transitive(r),
    ensures
        !no_match_in(x, uniq_seq(a, b, r, r), r) <==> (!no_match_in(x, dedup_seq(a, r), r)
            && no_match_in(x, dedup_seq(b, r), r)),
{
    let pa = dedup_seq(a, r);
    let pb = dedup_seq(b, r);
    let pred = |z: T| no_match_in(z, pb, r);
    let u = pa.filter(pred);
    if !no_match_in(x, u, r) {
        let k = choose|k: int| 0 <= k < u.len() && r(u[k], x);
        lemma_filter_subseq(pa, pred);
        let m = choose|m: Seq<int>| is_index_map(m, u, pa);
        assert(u[k] == pa[m[k]]);
        assert(!no_match_in(x, pa, r)) by {
            assert(r(pa[m[k]], x));
        }
        pa.lemma_filter_pred(pred, k);
        assert(pred(u[k]));
        assert(no_match_in(x, pb, r)) by {
            if !no_match_in(x, pb, r) {
                let j = choose|j: int| 0 <= j < pb.len() && r(pb[j], x);
                assert(r(x, pb[j]));
                assert(r(u[k], x));
                assert(r(u[k], pb[j]));
                assert(r(pb[j], u[k]));
                assert(!r(pb[j], u[k]));
            }
        }
    }
    if !no_match_in(x, pa, r) && no_match_in(x, pb, r) {
        let k = choose|k: int| 0 <= k < pa.len() && r(pa[k], x);
        assert(pred(pa[k])) by {
            if !no_match_in(pa[k], pb, r) {
                let m2 = choose|m2: int| 0 <= m2 < pb.len() && r(pb[m2], pa[k]);
                assert(r(pa[k], x));
                assert(r(x, pa[k]));
                assert(r(pa[k], pb[m2]));
                assert(r(x, pb[m2]));
                assert(r(pb[m2], x));
                assert(!r(pb[m2], x));
            }
        }
        pa.lemma_filter_contains(pred, k);
        assert(u.contains(pa[k]));
        let idx = choose|idx: int| 0 <= idx < u.len() && u[idx] == pa[k];
        assert(r(u[idx], x));
        assert(!no_match_in(x, u, r));
    }
}

/// When `T` obeys its equality specification, the default comparator decides
/// the structural equality relation.
pub(crate) proof fn lemma_equality_comparator_decides<T: PartialEq>(g: impl Fn(&T, &T) -> bool)
    requires
        T::obeys_eq_spec(),
        forall|x: &T, y: &T, b: bool| #[trigger] call_ensures(g, (x, y), b) ==> (
        T::obeys_eq_spec() ==> b == x.eq_spec(y)),
    ensures
        decides(g, eq_rel::<T>()),
{
    assert forall|x: &T, y: &T, b: bool| #[trigger] call_ensures(g, (x, y), b) implies b == (
    eq_rel::<T>())(*x, *y) by {}
}

} // verus!
