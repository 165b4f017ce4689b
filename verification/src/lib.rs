//! A collection of set-style methods for vectors — deduplication, difference,
//! intersection and union, in an unordered form and a faster form for sorted
//! input — together with a few small string-shaping helpers.
use vstd::prelude::*;

pub mod sorted_vec;
pub mod string;
pub mod vec;

verus! {

use crate::vec::{Uniq, dedup_seq, eq_rel, lemma_uniq_membership, no_match_in, uniq_seq};
use vstd::std_specs::cmp::PartialEqSpec;

/// A fresh vector holding the same elements as `v`.
fn copy_of<T: Copy>(v: &Vec<T>) -> (r: Vec<T>)
    ensures
        r@ == v@,
{
    let mut r: Vec<T> = Vec::new();
    let n = v.len();
    for i in 0..n
        invariant
            n == v@.len(),
            r@ == v@.take(i as int),
    {
        r.push(v[i]);
        proof {
            assert(v@.take(i as int + 1) =~= v@.take(i as int).push(v@[i as int]));
        }
    }
    proof {
        assert(v@.take(n as int) =~= v@);
    }
    r
}

/// The two sides of the symmetric difference of `a` and `b`: first the
/// values only `a` holds, then the values only `b` holds.
pub fn uniques<T: PartialEq + Copy>(a: Vec<T>, b: Vec<T>) -> (r: Vec<Vec<T>>)
    ensures
        r@.len() == 2,
        T::obeys_eq_spec() ==> r@[0]@ == uniq_seq(a@, b@, eq_rel::<T>(), eq_rel::<T>()),
        T::obeys_eq_spec() ==> r@[1]@ == uniq_seq(b@, a@, eq_rel::<T>(), eq_rel::<T>()),
{
    let b2 = copy_of(&b);
    let first = a.uniq(b2);
    let second = b.uniq(a);
    let mut r: Vec<Vec<T>> = Vec::new();
    r.push(first);
    r.push(second);
    r
}

/// The two sides of `uniques` partition the symmetric difference: under an
/// equivalence `r`, a value with an equivalent in exactly one of the two
/// deduplicated inputs has an equivalent in exactly one of the two results,
/// and a value with equivalents in both inputs has an equivalent in
/// neither result.
pub proof fn lemma_uniques_partition<T>(a: Seq<T>, b: Seq<T>, r: spec_fn(T, T) -> bool, x: T)
    requires
        vstd::relations::symmetric(r),
        vstd::relations::transitive(r),
    ensures
        (!no_match_in(x, dedup_seq(a, r), r) != !no_match_in(x, dedup_seq(b, r), r)) ==> (
        !no_match_in(x, uniq_seq(a, b, r, r), r) != !no_match_in(x, uniq_seq(b, a, r, r), r)),
        (!no_match_in(x, dedup_seq(a, r), r) && !no_match_in(x, dedup_seq(b, r), r)) ==> (
        no_match_in(x, uniq_seq(a, b, r, r), r) && no_match_in(x, uniq_seq(b, a, r, r), r)),
{
    lemma_uniq_membership(a, b, r, x);
    lemma_uniq_membership(b, a, r, x);
}

} // verus!
