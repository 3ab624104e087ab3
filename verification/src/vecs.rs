//! Small facts about vectors and their models that every module uses.

use vstd::prelude::*;
use crate::field::{Fp, is_felt, lemma_view_is_felt};

verus! {

/// Pushing onto a vector pushes the element's model onto the vector's model.
pub proof fn lemma_deep_view_push<T: DeepView>(before: Vec<T>, after: Vec<T>, x: T)
    requires
        after@ == before@.push(x),
    ensures
        after.deep_view() == before.deep_view().push(x.deep_view()),
{
    assert(after.deep_view() =~= before.deep_view().push(x.deep_view()));
}

/// Writing an element of a vector writes its model into the vector's model.
pub proof fn lemma_deep_view_update<T: DeepView>(before: Vec<T>, after: Vec<T>, i: int, x: T)
    requires
        0 <= i < before.len(),
        after@ == before@.update(i, x),
    ensures
        after.deep_view() == before.deep_view().update(i, x.deep_view()),
{
    assert(after.deep_view() =~= before.deep_view().update(i, x.deep_view()));
}

/// A row of `n` zeros.
pub open spec fn zero_row(n: nat) -> Seq<int> {
    Seq::new(n, |i: int| 0int)
}

/// A row of `n` zeros.
pub fn zero_vec(n: usize) -> (row: Vec<Fp>)
    ensures
        row.len() == n,
        row.deep_view() == zero_row(n as nat),
{
    let mut row: Vec<Fp> = Vec::new();
    let mut i: usize = 0;
    while i < n
        invariant
            i <= n,
            row.len() == i,
            row.deep_view() == zero_row(i as nat),
        decreases n - i,
    {
        let ghost before = row;
        let z = Fp::zero();
        row.push(z);
        proof {
            lemma_deep_view_push(before, row, z);
            assert(row.deep_view() =~= zero_row((i + 1) as nat));
        }
        i += 1;
    }
    row
}

/// Every entry is a canonical representative.
pub open spec fn all_felt(p: Seq<int>) -> bool {
    forall|i: int| 0 <= i < p.len() ==> is_felt(#[trigger] p[i])
}

/// Every entry of the matrix is a canonical representative.
pub open spec fn matrix_is_felt(m: Seq<Seq<int>>) -> bool {
    forall|i: int| 0 <= i < m.len() ==> all_felt(#[trigger] m[i])
}

/// The model of a vector of field elements holds canonical representatives only.
pub proof fn lemma_vec_is_felt(v: Vec<Fp>)
    ensures
        all_felt(v.deep_view()),
{
    assert forall|i: int| 0 <= i < v.deep_view().len() implies is_felt(
        #[trigger] v.deep_view()[i],
    ) by {
        lemma_view_is_felt(v@[i]);
    }
}

/// The model of a matrix of field elements holds canonical representatives only.
pub proof fn lemma_matrix_is_felt(m: Vec<Vec<Fp>>)
    ensures
        matrix_is_felt(m.deep_view()),
{
    assert forall|i: int| 0 <= i < m.deep_view().len() implies all_felt(
        #[trigger] m.deep_view()[i],
    ) by {
        lemma_vec_is_felt(m@[i]);
    }
}

} // verus!
