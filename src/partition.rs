//! The partitioner: splits the rows of a table into those whose condition
//! holds and those whose condition does not, keeping their relative order.
use vstd::multiset::Multiset;
use vstd::prelude::*;

verus! {

broadcast use vstd::seq_lib::group_to_multiset_ensures, vstd::multiset::group_multiset_axioms;

/// The rows among the first `n` positions of `rows` whose condition value, at the
/// same position, is `Some(b)`, in their original order.
pub open spec fn select_prefix(rows: Seq<u64>, cond: Seq<Option<bool>>, b: bool, n: int) -> Seq<u64>
    decreases n,
{
    if n <= 0 {
        Seq::empty()
    } else {
        let prev = select_prefix(rows, cond, b, n - 1);
        if cond[n - 1] == Some(b) {
            prev.push(rows[n - 1])
        } else {
            prev
        }
    }
}

/// The rows whose condition value is `Some(b)`, in their original order.
pub open spec fn select(rows: Seq<u64>, cond: Seq<Option<bool>>, b: bool) -> Seq<u64> {
    select_prefix(rows, cond, b, rows.len() as int)
}

/// Every value of the condition column is `true` or `false`.
pub open spec fn all_boolean(cond: Seq<Option<bool>>) -> bool {
    forall|i: int| 0 <= i < cond.len() ==> #[trigger] cond[i] is Some
}

/// A group of rows, absent when it would hold none.
pub open spec fn nonempty(s: Seq<u64>) -> Option<Seq<u64>> {
    if s.len() == 0 {
        None
    } else {
        Some(s)
    }
}

/// The rows of a group, as a sequence.
pub open spec fn group_view(g: Option<Vec<u64>>) -> Option<Seq<u64>> {
    match g {
        Some(v) => Some(v@),
        None => None,
    }
}

/// A row is selected exactly when it stands at a position whose condition value is `Some(b)`.
pub proof fn lemma_select_contains(rows: Seq<u64>, cond: Seq<Option<bool>>, b: bool, n: int)
    requires
        0 <= n <= rows.len(),
        n <= cond.len(),
    ensures
        forall|x: u64|
            #[trigger] select_prefix(rows, cond, b, n).contains(x) <==> exists|i: int|
                0 <= i < n && rows[i] == x && cond[i] == Some(b),
    decreases n,
{
    if n > 0 {
        lemma_select_contains(rows, cond, b, n - 1);
        let prev = select_prefix(rows, cond, b, n - 1);
        assert forall|x: u64|
            #[trigger] select_prefix(rows, cond, b, n).contains(x) <==> exists|i: int|
                0 <= i < n && rows[i] == x && cond[i] == Some(b) by {
            if cond[n - 1] == Some(b) {
                let s = prev.push(rows[n - 1]);
                if s.contains(x) {
                    let k = choose|k: int| 0 <= k < s.len() && #[trigger] s[k] == x;
                    if k < prev.len() {
                        assert(prev[k] == x);
                    }
                }
                if prev.contains(x) {
                    let k = choose|k: int| 0 <= k < prev.len() && #[trigger] prev[k] == x;
                    assert(s[k] == x);
                }
                if x == rows[n - 1] {
                    assert(s[prev.len() as int] == x);
                }
            }
        }
    }
}

/// Selecting on both values of an all-boolean column splits the rows without loss or repetition.
pub proof fn lemma_select_multiset(rows: Seq<u64>, cond: Seq<Option<bool>>, n: int)
    requires
        0 <= n <= rows.len(),
        n <= cond.len(),
        forall|i: int| 0 <= i < n ==> #[trigger] cond[i] is Some,
    ensures
        select_prefix(rows, cond, true, n).to_multiset().add(
            select_prefix(rows, cond, false, n).to_multiset(),
        ) =~= rows.take(n).to_multiset(),
    decreases n,
{
    if n > 0 {
        lemma_select_multiset(rows, cond, n - 1);
        let t = select_prefix(rows, cond, true, n - 1);
        let f = select_prefix(rows, cond, false, n - 1);
        let r = rows[n - 1];
        assert(rows.take(n) =~= rows.take(n - 1).push(r));
        assert(rows.take(n).to_multiset() =~= rows.take(n - 1).to_multiset().insert(r));
        assert(cond[n - 1] is Some);
        if cond[n - 1] == Some(true) {
            assert(t.push(r).to_multiset() =~= t.to_multiset().insert(r));
            assert(t.to_multiset().insert(r).add(f.to_multiset()) =~= t.to_multiset().add(
                f.to_multiset(),
            ).insert(r));
            assert(select_prefix(rows, cond, true, n) == t.push(r));
            assert(select_prefix(rows, cond, false, n) == f);
        } else {
            assert(cond[n - 1] == Some(false));
            assert(f.push(r).to_multiset() =~= f.to_multiset().insert(r));
            assert(t.to_multiset().add(f.to_multiset().insert(r)) =~= t.to_multiset().add(
                f.to_multiset(),
            ).insert(r));
            assert(select_prefix(rows, cond, false, n) == f.push(r));
            assert(select_prefix(rows, cond, true, n) == t);
        }
    } else {
        assert(rows.take(n) =~= Seq::<u64>::empty());
        assert(Seq::<u64>::empty().to_multiset() =~= Multiset::empty());
        assert(Multiset::<u64>::empty().add(Multiset::empty()) =~= Multiset::empty());
    }
}

/// Where every condition value is `Some(b)`, selecting on `b` keeps every row
/// and selecting on the other value keeps none.
pub proof fn lemma_select_uniform(rows: Seq<u64>, cond: Seq<Option<bool>>, b: bool, n: int)
    requires
        0 <= n <= rows.len(),
        n <= cond.len(),
        forall|i: int| 0 <= i < n ==> #[trigger] cond[i] == Some(b),
    ensures
        select_prefix(rows, cond, b, n) == rows.take(n),
        select_prefix(rows, cond, !b, n) == Seq::<u64>::empty(),
    decreases n,
{
    if n > 0 {
        lemma_select_uniform(rows, cond, b, n - 1);
        assert(cond[n - 1] == Some(b));
        assert(rows.take(n) =~= rows.take(n - 1).push(rows[n - 1]));
    } else {
        assert(rows.take(n) =~= Seq::<u64>::empty());
    }
}

/// The two groups of a partition: rows whose condition is `true`, and rows whose
/// condition is `false`. A group that would hold no row is absent.
pub struct Partition {
    pub matched: Option<Vec<u64>>,
    pub unmatched: Option<Vec<u64>>,
}

impl View for Partition {
    type V = (Option<Seq<u64>>, Option<Seq<u64>>);

    open spec fn view(&self) -> (Option<Seq<u64>>, Option<Seq<u64>>) {
        (group_view(self.matched), group_view(self.unmatched))
    }
}

/// A condition column held a value other than `true` or `false` (a null).
#[derive(Debug, Clone, Copy, PartialEq, Eq, Structural)]
pub enum PartitionError {
    NonBoolean { position: usize },
}

/// Splits `rows` by the aligned condition column `cond`. Each group keeps the
/// relative order of its rows. The first position holding a null ends the
/// partition with an error.
pub fn partition(rows: &Vec<u64>, cond: &Vec<Option<bool>>) -> (r: Result<Partition, PartitionError>)
    requires
        rows.len() == cond.len(),
    ensures
        r is Ok <==> all_boolean(cond@),
        match r {
            Ok(p) => p@ == (
                nonempty(select(rows@, cond@, true)),
                nonempty(select(rows@, cond@, false)),
            ),
            Err(PartitionError::NonBoolean { position }) => {
                &&& position < cond.len()
                &&& cond@[position as int] is None
                &&& forall|j: int| 0 <= j < position ==> #[trigger] cond@[j] is Some
            },
        },
{
    let mut matched: Vec<u64> = Vec::new();
    let mut unmatched: Vec<u64> = Vec::new();
    let mut i: usize = 0;
    while i < rows.len()
        invariant
            i <= rows.len(),
            rows.len() == cond.len(),
            matched@ == select_prefix(rows@, cond@, true, i as int),
            unmatched@ == select_prefix(rows@, cond@, false, i as int),
            forall|j: int| 0 <= j < i ==> #[trigger] cond@[j] is Some,
        decreases rows.len() - i,
    {
        match cond[i] {
            Some(true) => matched.push(rows[i]),
            Some(false) => unmatched.push(rows[i]),
            None => {
                return Err(PartitionError::NonBoolean { position: i });
            },
        }
        i += 1;
    }
    let matched = if matched.len() == 0 {
        None
    } else {
        Some(matched)
    };
    let unmatched = if unmatched.len() == 0 {
        None
    } else {
        Some(unmatched)
    };
    Ok(Partition { matched, unmatched })
}

} // verus!
