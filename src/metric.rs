use vstd::laws_eq::obeys_concrete_eq;
use vstd::prelude::*;

verus! {

/// The number of positions `i < k` at which `a` and `b` hold different labels.
pub open spec fn mismatches<T>(a: Seq<T>, b: Seq<T>, k: nat) -> nat
    decreases k,
{
    if k == 0 {
        0
    } else {
        mismatches(a, b, (k - 1) as nat) + if a[k - 1] != b[k - 1] { 1nat } else { 0nat }
    }
}

/// The number of positions at which two labelings of one length differ.
pub open spec fn wrong_count<T>(a: Seq<T>, b: Seq<T>) -> nat {
    mismatches(a, b, a.len())
}

/// Counts the positions at which `a` and `b` hold different labels.
pub fn wrong_metric<T: PartialEq>(a: &[T], b: &[T]) -> (r: usize)
    requires
        a@.len() == b@.len(),
        obeys_concrete_eq::<T>(),
    ensures
        r == wrong_count(a@, b@),
{
    let mut count: usize = 0;
    let mut i: usize = 0;
    while i < a.len()
        invariant
            a@.len() == b@.len(),
            i <= a@.len(),
            count == mismatches(a@, b@, i as nat),
            count <= i,
            obeys_concrete_eq::<T>(),
        decreases a@.len() - i,
    {
        proof {
            reveal(obeys_concrete_eq);
        }
        if a[i] != b[i] {
            count += 1;
        }
        i += 1;
    }
    count
}

proof fn lemma_mismatches_sym<T>(a: Seq<T>, b: Seq<T>, k: nat)
    ensures
        mismatches(a, b, k) == mismatches(b, a, k),
    decreases k,
{
    if k > 0 {
        lemma_mismatches_sym(a, b, (k - 1) as nat);
    }
}

proof fn lemma_mismatches_zero<T>(a: Seq<T>, b: Seq<T>, k: nat)
    requires
        k <= a.len(),
        k <= b.len(),
    ensures
        mismatches(a, b, k) == 0 <==> forall|i: int| 0 <= i < k ==> a[i] == b[i],
    decreases k,
{
    if k > 0 {
        lemma_mismatches_zero(a, b, (k - 1) as nat);
    }
}

/// The count of differing positions does not depend on the order of the two
/// labelings, and it is zero exactly when they are equal.
pub proof fn lemma_metric_symmetry<T>(a: Seq<T>, b: Seq<T>)
    requires
        a.len() == b.len(),
    ensures
        wrong_count(a, b) == wrong_count(b, a),
        wrong_count(a, b) == 0 <==> a == b,
{
    lemma_mismatches_sym(a, b, a.len());
    lemma_mismatches_zero(a, b, a.len());
    if wrong_count(a, b) == 0 {
        assert(a =~= b);
    }
}

} // verus!
