//! The branch list: (condition, operation) pairs followed by one default
//! operation, read from a flat list of expressions.
use vstd::prelude::*;

verus! {

/// The (condition, operation) pairs, in order, and the trailing default operation.
pub struct BranchList<T> {
    pub pairs: Vec<(T, T)>,
    pub default: T,
}

/// A flat list of expressions of even length: either a condition lacks its
/// operation or the default is missing.
#[derive(Debug, Clone, Copy, PartialEq, Eq, Structural)]
pub enum BranchListError {
    EvenLength { len: usize },
}

/// The flat list holds `pairs`, each condition before its operation, then `default`.
pub open spec fn flat_list<T>(pairs: Seq<(T, T)>, default: T, exprs: Seq<T>) -> bool {
    &&& exprs.len() == 2 * pairs.len() + 1
    &&& forall|k: int|
        0 <= k < pairs.len() ==> #[trigger] pairs[k] == (exprs[2 * k], exprs[2 * k + 1])
    &&& default == exprs.last()
}

impl<T> BranchList<T> {
    /// Reads `c0, o0, c1, o1, ..., default` as pairs `(c0, o0), (c1, o1), ...` and
    /// a default. A list of even length (the empty one too) is refused.
    pub fn from_exprs(exprs: Vec<T>) -> (r: Result<BranchList<T>, BranchListError>)
        ensures
            r is Ok <==> exprs.len() % 2 == 1,
            match r {
                Ok(b) => flat_list(b.pairs@, b.default, exprs@),
                Err(BranchListError::EvenLength { len }) => len == exprs.len(),
            },
    {
        let len = exprs.len();
        if len % 2 == 0 {
            return Err(BranchListError::EvenLength { len });
        }
        let ghost all = exprs@;
        let mut rest = exprs;
        let mut pairs: Vec<(T, T)> = Vec::new();
        while rest.len() > 1
            invariant
                len == all.len(),
                len % 2 == 1,
                2 * pairs.len() < len,
                rest@ == all.skip(2 * pairs.len()),
                forall|k: int|
                    0 <= k < pairs.len() ==> #[trigger] pairs@[k] == (all[2 * k], all[2 * k + 1]),
            decreases rest.len(),
        {
            let ghost p = pairs.len() as int;
            let condition = rest.remove(0);
            let operation = rest.remove(0);
            assert(condition == all[2 * p] && operation == all[2 * p + 1]);
            pairs.push((condition, operation));
            assert(rest@ =~= all.skip(2 * p + 2));
        }
        let default = rest.remove(0);
        assert(2 * pairs.len() + 1 == len);
        Ok(BranchList { pairs, default })
    }
}

} // verus!
