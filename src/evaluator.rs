//! The branch evaluator: a left fold over the (condition, operation) pairs that
//! carries the rows still unclaimed and the fragments claimed so far, then the
//! default fragment, then the order that puts every row back in its place.
use crate::partition::{all_boolean, lemma_select_multiset, partition, select, PartitionError};
use vstd::prelude::*;

verus! {

broadcast use vstd::seq_lib::group_to_multiset_ensures, vstd::multiset::group_multiset_axioms,
    vstd::seq_lib::lemma_multiset_commutative;

/// The rows `0, 1, ..., n - 1` of a table of `n` rows.
pub open spec fn row_range(n: nat) -> Seq<u64> {
    Seq::new(n, |i: int| i as u64)
}

/// The rows that one branch's operation is evaluated on.
pub struct FragmentModel {
    pub branch: nat,
    pub rows: Seq<u64>,
}

/// All rows claimed by a list of fragments, fragment after fragment.
pub open spec fn claimed(frags: Seq<FragmentModel>) -> Seq<u64>
    decreases frags.len(),
{
    if frags.len() == 0 {
        Seq::empty()
    } else {
        claimed(frags.drop_last()) + frags.last().rows
    }
}

/// The state of an evaluation between two branches.
pub struct EvalModel {
    pub n_rows: nat,
    pub n_pairs: nat,
    pub remaining: Seq<u64>,
    pub fragments: Seq<FragmentModel>,
    pub next_branch: nat,
}

impl EvalModel {
    /// Every row of the table is either claimed by exactly one fragment or still
    /// remaining, never both; fragments are tagged by branches already passed.
    pub open spec fn wf(self) -> bool {
        &&& self.n_rows <= u64::MAX
        &&& self.next_branch <= self.n_pairs
        &&& claimed(self.fragments).to_multiset().add(self.remaining.to_multiset())
            == row_range(self.n_rows).to_multiset()
        &&& forall|k: int|
            0 <= k < self.fragments.len() ==> #[trigger] self.fragments[k].branch
                < self.next_branch && self.fragments[k].rows.len() > 0
    }

    /// One branch: the rows whose condition is true form the branch's fragment
    /// (when there are any), the others remain.
    pub open spec fn step(self, cond: Seq<Option<bool>>) -> EvalModel {
        let matched = select(self.remaining, cond, true);
        EvalModel {
            remaining: select(self.remaining, cond, false),
            fragments: if matched.len() > 0 {
                self.fragments.push(FragmentModel { branch: self.next_branch, rows: matched })
            } else {
                self.fragments
            },
            next_branch: self.next_branch + 1,
            ..self
        }
    }

    /// The default: whatever remains after the last branch forms the default's
    /// fragment, tagged `n_pairs`; nothing is added when no row remains.
    pub open spec fn finish(self) -> Seq<FragmentModel> {
        if self.remaining.len() > 0 {
            self.fragments.push(FragmentModel { branch: self.n_pairs, rows: self.remaining })
        } else {
            self.fragments
        }
    }
}

/// Each value of `row_range(n)` occurs once, and no other value occurs.
pub proof fn lemma_row_range_counts(n: nat)
    requires
        n <= u64::MAX,
    ensures
        forall|x: u64|
            #[trigger] row_range(n).to_multiset().count(x) == if (x as nat) < n {
                1nat
            } else {
                0nat
            },
{
    let s = row_range(n);
    assert(s.no_duplicates());
    s.lemma_multiset_has_no_duplicates();
    assert forall|x: u64| #[trigger] s.to_multiset().count(x) == if (x as nat) < n {
        1nat
    } else {
        0nat
    } by {
        if (x as nat) < n {
            assert(s[x as int] == x);
        } else {
            assert(!s.contains(x));
        }
    }
}

/// A sequence whose multiset fits inside that of `row_range(n)` has no repeated
/// rows, and holds only rows below `n`.
pub proof fn lemma_within_range(s: Seq<u64>, rest: Seq<u64>, n: nat)
    requires
        n <= u64::MAX,
        s.to_multiset().add(rest.to_multiset()) == row_range(n).to_multiset(),
    ensures
        s.no_duplicates(),
        forall|i: int| 0 <= i < s.len() ==> (#[trigger] s[i] as nat) < n,
{
    lemma_row_range_counts(n);
    assert forall|x: u64| s.to_multiset().contains(x) implies s.to_multiset().count(x) == 1 by {
        assert(row_range(n).to_multiset().count(x) == s.to_multiset().count(x)
            + rest.to_multiset().count(x));
    }
    s.lemma_multiset_has_no_duplicates_conv();
    assert forall|i: int| 0 <= i < s.len() implies (#[trigger] s[i] as nat) < n by {
        assert(s.contains(s[i]));
        assert(row_range(n).to_multiset().count(s[i]) >= s.to_multiset().count(s[i]));
    }
}

/// A branch step keeps every row accounted for exactly once: the rows claimed by
/// all fragments together with the rows still remaining are, as a multiset,
/// still exactly the rows of the table, as long as the condition column holds
/// only `true` and `false`.
pub proof fn lemma_step_accounts_every_row(m: EvalModel, cond: Seq<Option<bool>>)
    requires
        m.wf(),
        m.next_branch < m.n_pairs,
        cond.len() == m.remaining.len(),
        all_boolean(cond),
    ensures
        m.step(cond).wf(),
{
    let matched = select(m.remaining, cond, true);
    let unmatched = select(m.remaining, cond, false);
    lemma_select_multiset(m.remaining, cond, m.remaining.len() as int);
    assert(m.remaining.take(m.remaining.len() as int) =~= m.remaining);
    let n = m.step(cond);
    if matched.len() > 0 {
        let f = FragmentModel { branch: m.next_branch, rows: matched };
        assert(n.fragments.drop_last() =~= m.fragments);
        assert(claimed(n.fragments) == claimed(m.fragments) + matched);
        assert(claimed(n.fragments).to_multiset().add(unmatched.to_multiset())
            =~= claimed(m.fragments).to_multiset().add(m.remaining.to_multiset()));
        assert forall|k: int| 0 <= k < n.fragments.len() implies #[trigger] n.fragments[k].branch
            < n.next_branch && n.fragments[k].rows.len() > 0 by {
            if k < m.fragments.len() {
                assert(n.fragments[k] == m.fragments[k]);
            }
        }
    } else {
        assert(matched.to_multiset() =~= vstd::multiset::Multiset::empty());
        assert(claimed(n.fragments).to_multiset().add(unmatched.to_multiset())
            =~= claimed(m.fragments).to_multiset().add(m.remaining.to_multiset()));
    }
}

/// Once the default has taken what remains, the fragments claim every row of
/// the table exactly once.
pub proof fn lemma_finish_claims_every_row(m: EvalModel)
    requires
        m.wf(),
    ensures
        claimed(m.finish()).to_multiset() == row_range(m.n_rows).to_multiset(),
{
    if m.remaining.len() > 0 {
        assert(m.finish().drop_last() =~= m.fragments);
    } else {
        assert(m.remaining =~= Seq::<u64>::empty());
        assert(claimed(m.fragments).to_multiset().add(m.remaining.to_multiset())
            =~= claimed(m.fragments).to_multiset());
    }
}

/// The rows that one branch's operation is evaluated on: `branch` is the index
/// of a (condition, operation) pair, or the number of pairs for the default.
pub struct Fragment {
    pub branch: usize,
    pub rows: Vec<u64>,
}

impl View for Fragment {
    type V = FragmentModel;

    open spec fn view(&self) -> FragmentModel {
        FragmentModel { branch: self.branch as nat, rows: self.rows@ }
    }
}

/// The fragments of a list, as their models.
pub open spec fn fragments_view(f: Seq<Fragment>) -> Seq<FragmentModel> {
    f.map_values(|x: Fragment| x@)
}

/// An evaluation in progress.
pub struct Evaluation {
    pub n_rows: usize,
    pub n_pairs: usize,
    pub remaining: Vec<u64>,
    pub fragments: Vec<Fragment>,
    pub next_branch: usize,
}

impl View for Evaluation {
    type V = EvalModel;

    open spec fn view(&self) -> EvalModel {
        EvalModel {
            n_rows: self.n_rows as nat,
            n_pairs: self.n_pairs as nat,
            remaining: self.remaining@,
            fragments: fragments_view(self.fragments@),
            next_branch: self.next_branch as nat,
        }
    }
}

impl Evaluation {
    /// See `EvalModel::wf`.
    pub open spec fn wf(&self) -> bool {
        self@.wf()
    }

    /// Starts an evaluation of `n_pairs` (condition, operation) pairs over a
    /// table of `n_rows` rows: every row remains, nothing is claimed yet.
    pub fn new(n_rows: usize, n_pairs: usize) -> (e: Evaluation)
        ensures
            e.wf(),
            e@.n_rows == n_rows,
            e@.n_pairs == n_pairs,
            e@.remaining == row_range(n_rows as nat),
            e@.fragments == Seq::<FragmentModel>::empty(),
            e@.next_branch == 0,
    {
        let mut remaining: Vec<u64> = Vec::new();
        let mut i: usize = 0;
        while i < n_rows
            invariant
                i <= n_rows,
                remaining@ == row_range(i as nat),
            decreases n_rows - i,
        {
            remaining.push(i as u64);
            i += 1;
            assert(remaining@ =~= row_range(i as nat));
        }
        let e = Evaluation { n_rows, n_pairs, remaining, fragments: Vec::new(), next_branch: 0 };
        assert(fragments_view(e.fragments@) =~= Seq::<FragmentModel>::empty());
        assert(claimed(Seq::<FragmentModel>::empty()) =~= Seq::<u64>::empty());
        assert(Seq::<u64>::empty().to_multiset() =~= vstd::multiset::Multiset::empty());
        assert(vstd::multiset::Multiset::<u64>::empty().add(e@.remaining.to_multiset())
            =~= e@.remaining.to_multiset());
        assert(e@.n_rows <= u64::MAX);
        e
    }

    /// Applies the next (condition, operation) pair, given the condition's value on
    /// each remaining row, in the order of `remaining`. The rows whose condition is
    /// true become the pair's fragment, the rest remain. A null in the condition
    /// column ends the evaluation with an error.
    pub fn step(self, cond: &Vec<Option<bool>>) -> (r: Result<Evaluation, PartitionError>)
        requires
            self.wf(),
            self.next_branch < self.n_pairs,
            cond.len() == self.remaining.len(),
        ensures
            r is Ok <==> all_boolean(cond@),
            r matches Ok(e) ==> e.wf() && e@ == self@.step(cond@),
    {
        let ghost m = self@;
        let Evaluation { n_rows, n_pairs, remaining, mut fragments, next_branch } = self;
        let p = match partition(&remaining, cond) {
            Ok(p) => p,
            Err(e) => {
                return Err(e);
            },
        };
        let ghost old_frags = fragments@;
        match p.matched {
            Some(rows) => {
                fragments.push(Fragment { branch: next_branch, rows });
                assert(fragments_view(fragments@) =~= fragments_view(old_frags).push(
                    FragmentModel { branch: next_branch as nat, rows: select(m.remaining, cond@, true) },
                ));
            },
            None => {},
        }
        let remaining = match p.unmatched {
            Some(v) => v,
            None => Vec::new(),
        };
        let e = Evaluation { n_rows, n_pairs, remaining, fragments, next_branch: next_branch + 1 };
        assert(e@.remaining =~= m.step(cond@).remaining);
        assert(e@.fragments =~= m.step(cond@).fragments);
        proof {
            lemma_step_accounts_every_row(m, cond@);
        }
        Ok(e)
    }

    /// Hands whatever remains after the last pair to the default operation and
    /// returns the fragments, which then claim every row exactly once.
    pub fn finish(self) -> (o: Outcome)
        requires
            self.wf(),
            self.next_branch == self.n_pairs,
        ensures
            o.wf(),
            o.n_rows == self.n_rows,
            fragments_view(o.fragments@) == self@.finish(),
    {
        let ghost m = self@;
        let Evaluation { n_rows, n_pairs, remaining, mut fragments, next_branch } = self;
        let ghost old_frags = fragments@;
        if remaining.len() > 0 {
            fragments.push(Fragment { branch: n_pairs, rows: remaining });
            assert(fragments_view(fragments@) =~= fragments_view(old_frags).push(
                FragmentModel { branch: n_pairs as nat, rows: m.remaining },
            ));
        }
        proof {
            lemma_finish_claims_every_row(m);
        }
        Outcome { n_rows, fragments }
    }
}

/// A finished evaluation: fragments that together claim every row exactly once.
pub struct Outcome {
    pub n_rows: usize,
    pub fragments: Vec<Fragment>,
}

impl Outcome {
    /// The fragments claim every row of the table exactly once.
    pub open spec fn wf(&self) -> bool {
        &&& self.n_rows <= u64::MAX
        &&& claimed(fragments_view(self.fragments@)).to_multiset() == row_range(
            self.n_rows as nat,
        ).to_multiset()
    }

    /// The rows of all fragments, fragment after fragment: the order in which
    /// the fragments' computed values stand once concatenated.
    pub fn claimed_rows(&self) -> (r: Vec<u64>)
        ensures
            r@ == claimed(fragments_view(self.fragments@)),
    {
        let ghost fv = fragments_view(self.fragments@);
        let mut flat: Vec<u64> = Vec::new();
        let mut f: usize = 0;
        while f < self.fragments.len()
            invariant
                f <= self.fragments.len(),
                fv == fragments_view(self.fragments@),
                flat@ == claimed(fv.take(f as int)),
            decreases self.fragments.len() - f,
        {
            let rows = &self.fragments[f].rows;
            let ghost start = flat@;
            let mut j: usize = 0;
            while j < rows.len()
                invariant
                    j <= rows.len(),
                    flat@ == start + rows@.take(j as int),
                decreases rows.len() - j,
            {
                flat.push(rows[j]);
                j += 1;
                assert(flat@ =~= start + rows@.take(j as int));
            }
            assert(rows@.take(j as int) =~= rows@);
            assert(fv.take(f + 1).drop_last() =~= fv.take(f as int));
            f += 1;
        }
        assert(fv.take(f as int) =~= fv);
        flat
    }

    /// Where each row's value stands among the fragments' values once they are
    /// concatenated: `r[i]` is the position of row `i`. Taking the concatenated
    /// values at `r[0], r[1], ...` puts the output in the original row order.
    pub fn output_order(&self) -> (r: Vec<usize>)
        requires
            self.wf(),
        ensures
            r.len() == self.n_rows,
            forall|i: int|
                0 <= i < self.n_rows ==> #[trigger] r@[i] < claimed(
                    fragments_view(self.fragments@),
                ).len() && claimed(fragments_view(self.fragments@))[r@[i] as int] == i,
    {
        let flat = self.claimed_rows();
        proof {
            assert(Seq::<u64>::empty().to_multiset() =~= vstd::multiset::Multiset::empty());
            assert(flat@.to_multiset().add(Seq::<u64>::empty().to_multiset())
                =~= flat@.to_multiset());
            lemma_within_range(flat@, Seq::empty(), self.n_rows as nat);
        }
        let n = self.n_rows;
        let mut order: Vec<usize> = Vec::new();
        let mut i: usize = 0;
        while i < n
            invariant
                i <= n,
                order.len() == i,
            decreases n - i,
        {
            order.push(0);
            i += 1;
        }
        let mut t: usize = 0;
        while t < flat.len()
            invariant
                t <= flat.len(),
                order.len() == n,
                flat@.no_duplicates(),
                forall|k: int| 0 <= k < flat.len() ==> (#[trigger] flat@[k] as nat) < n,
                forall|k: int| 0 <= k < t ==> order@[#[trigger] flat@[k] as int] == k,
            decreases flat.len() - t,
        {
            order.set(flat[t] as usize, t);
            t += 1;
        }
        proof {
            lemma_row_range_counts(n as nat);
            assert forall|i: int| 0 <= i < n implies #[trigger] order@[i] < flat@.len()
                && flat@[order@[i] as int] == i by {
                assert(row_range(n as nat).to_multiset().count(i as u64) == 1);
                assert(flat@.contains(i as u64));
                let k = choose|k: int| 0 <= k < flat@.len() && #[trigger] flat@[k] == i as u64;
                assert(order@[flat@[k] as int] == k);
            }
        }
        order
    }
}

} // verus!
