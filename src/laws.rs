//! What holds of every evaluation, stated over the models that the evaluator's
//! and the partitioner's contracts use.
use crate::evaluator::{claimed, lemma_row_range_counts, lemma_within_range, EvalModel, FragmentModel};
use crate::partition::{lemma_select_contains, lemma_select_uniform, select};
use vstd::prelude::*;

verus! {

broadcast use vstd::seq_lib::group_to_multiset_ensures, vstd::multiset::group_multiset_axioms;

/// `p` maps the positions `0..n` onto themselves, each position hit.
pub open spec fn is_permutation(p: Seq<int>, n: nat) -> bool {
    &&& p.len() == n
    &&& forall|i: int| 0 <= i < n ==> 0 <= #[trigger] p[i] < n
    &&& forall|i: int| 0 <= i < n ==> #[trigger] p.contains(i)
}

/// The sequence whose `i`-th item is the `p[i]`-th of `s`.
pub open spec fn permute<A>(s: Seq<A>, p: Seq<int>) -> Seq<A> {
    Seq::new(p.len(), |i: int| s[p[i]])
}

/// Short-circuit: in every state of an evaluation, a row that a branch has
/// claimed is not among the remaining rows, which are all that later branches
/// and the default are evaluated on.
pub proof fn lemma_claimed_rows_never_remain(m: EvalModel)
    requires
        m.wf(),
    ensures
        forall|r: u64| #[trigger] claimed(m.fragments).contains(r) ==> !m.remaining.contains(r),
{
    lemma_row_range_counts(m.n_rows);
    assert forall|r: u64| #[trigger] claimed(m.fragments).contains(r) implies !m.remaining.contains(
        r,
    ) by {
        assert(claimed(m.fragments).to_multiset().add(m.remaining.to_multiset()).count(r)
            == claimed(m.fragments).to_multiset().count(r) + m.remaining.to_multiset().count(r));
    }
}

/// Short-circuit, one branch at a time: the rows left for later branches are
/// among those this branch saw, and none of them is a row this branch matched.
pub proof fn lemma_matched_rows_leave(m: EvalModel, cond: Seq<Option<bool>>)
    requires
        m.wf(),
        cond.len() == m.remaining.len(),
    ensures
        forall|r: u64| #[trigger] m.step(cond).remaining.contains(r) ==> m.remaining.contains(r),
        forall|r: u64|
            #[trigger] select(m.remaining, cond, true).contains(r) ==> !m.step(
                cond,
            ).remaining.contains(r),
{
    let rem = m.remaining;
    let n = rem.len() as int;
    lemma_select_contains(rem, cond, true, n);
    lemma_select_contains(rem, cond, false, n);
    assert(rem.to_multiset().add(claimed(m.fragments).to_multiset()) =~= claimed(
        m.fragments,
    ).to_multiset().add(rem.to_multiset()));
    lemma_within_range(rem, claimed(m.fragments), m.n_rows);
    assert forall|r: u64| #[trigger] m.step(cond).remaining.contains(r) implies rem.contains(r) by {
        let i = choose|i: int| 0 <= i < n && rem[i] == r && cond[i] == Some(false);
        assert(rem[i] == r);
    }
    assert forall|r: u64| #[trigger] select(rem, cond, true).contains(r) implies !m.step(
        cond,
    ).remaining.contains(r) by {
        if m.step(cond).remaining.contains(r) {
            let i = choose|i: int| 0 <= i < n && rem[i] == r && cond[i] == Some(true);
            let j = choose|j: int| 0 <= j < n && rem[j] == r && cond[j] == Some(false);
            assert(i != j);
        }
    }
}

/// Default completeness: the fragment tagged as the default's holds exactly the
/// rows that no condition matched, and there is one whenever such rows exist.
pub proof fn lemma_default_takes_the_rest(m: EvalModel)
    requires
        m.wf(),
    ensures
        forall|k: int|
            0 <= k < m.finish().len() && #[trigger] m.finish()[k].branch == m.n_pairs
                ==> m.finish()[k].rows == m.remaining,
        m.remaining.len() > 0 ==> m.finish().last() == (FragmentModel {
            branch: m.n_pairs,
            rows: m.remaining,
        }),
{
    assert forall|k: int|
        0 <= k < m.finish().len() && #[trigger] m.finish()[k].branch == m.n_pairs implies m.finish()[k].rows
        == m.remaining by {
        if k < m.fragments.len() {
            assert(m.finish()[k] == m.fragments[k]);
        }
    }
}

/// Row order does not matter: permuting the rows of a table together with
/// their condition values puts the same rows in each group of the partition.
pub proof fn lemma_partition_ignores_row_order(
    rows: Seq<u64>,
    cond: Seq<Option<bool>>,
    p: Seq<int>,
    b: bool,
)
    requires
        rows.len() == cond.len(),
        is_permutation(p, rows.len()),
    ensures
        forall|x: u64|
            #[trigger] select(permute(rows, p), permute(cond, p), b).contains(x) <==> select(
                rows,
                cond,
                b,
            ).contains(x),
{
    let n = rows.len() as int;
    let rows2 = permute(rows, p);
    let cond2 = permute(cond, p);
    lemma_select_contains(rows, cond, b, n);
    lemma_select_contains(rows2, cond2, b, n);
    assert forall|x: u64| #[trigger] select(rows2, cond2, b).contains(x) <==> select(
        rows,
        cond,
        b,
    ).contains(x) by {
        if select(rows2, cond2, b).contains(x) {
            let i = choose|i: int| 0 <= i < n && rows2[i] == x && cond2[i] == Some(b);
            assert(rows[p[i]] == x && cond[p[i]] == Some(b));
        }
        if select(rows, cond, b).contains(x) {
            let i = choose|i: int| 0 <= i < n && rows[i] == x && cond[i] == Some(b);
            assert(p.contains(i));
            let j = choose|j: int| 0 <= j < n && #[trigger] p[j] == i;
            assert(rows2[j] == x && cond2[j] == Some(b));
        }
    }
}

/// A condition true on every remaining row claims them all for its branch;
/// nothing remains.
pub proof fn lemma_all_true_claims_everything(m: EvalModel, cond: Seq<Option<bool>>)
    requires
        cond.len() == m.remaining.len(),
        m.remaining.len() > 0,
        forall|i: int| 0 <= i < cond.len() ==> #[trigger] cond[i] == Some(true),
    ensures
        m.step(cond).remaining == Seq::<u64>::empty(),
        m.step(cond).fragments == m.fragments.push(
            FragmentModel { branch: m.next_branch, rows: m.remaining },
        ),
{
    lemma_select_uniform(m.remaining, cond, true, m.remaining.len() as int);
    assert(m.remaining.take(m.remaining.len() as int) =~= m.remaining);
}

/// Once no row remains, later branches and the default add no fragment.
pub proof fn lemma_nothing_left_adds_nothing(m: EvalModel)
    requires
        m.remaining.len() == 0,
    ensures
        m.step(Seq::empty()).fragments == m.fragments,
        m.step(Seq::empty()).remaining.len() == 0,
        m.finish() == m.fragments,
{
}

} // verus!
