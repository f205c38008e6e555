use pl_ifelse::branches::{BranchList, BranchListError};
use pl_ifelse::evaluator::{Evaluation, Outcome};
use pl_ifelse::partition::{partition, PartitionError};

fn gather<T: Clone>(values: &[T], order: &[usize]) -> Vec<T> {
    order.iter().map(|&i| values[i].clone()).collect()
}

/// Concatenates, fragment after fragment, the value that `op` gives each row.
fn fragment_values(outcome: &Outcome, op: impl Fn(usize, u64) -> String) -> Vec<String> {
    let mut out = Vec::new();
    for f in &outcome.fragments {
        for &r in &f.rows {
            out.push(op(f.branch, r));
        }
    }
    out
}

#[test]
fn example_big_and_small() {
    let a = [1i64, 2, 3, 4];
    let ev = Evaluation::new(a.len(), 1);
    let cond: Vec<Option<bool>> = ev.remaining.iter().map(|&r| Some(a[r as usize] > 2)).collect();
    let ev = ev.step(&cond).unwrap();
    assert_eq!(ev.remaining, vec![0, 1]);
    let outcome = ev.finish();
    assert_eq!(outcome.fragments.len(), 2);
    assert_eq!(outcome.fragments[0].branch, 0);
    assert_eq!(outcome.fragments[0].rows, vec![2, 3]);
    assert_eq!(outcome.fragments[1].branch, 1);
    assert_eq!(outcome.fragments[1].rows, vec![0, 1]);
    let values = fragment_values(&outcome, |b, _| if b == 0 { "big".to_string() } else { "small".to_string() });
    assert_eq!(values, vec!["big", "big", "small", "small"]);
    let order = outcome.output_order();
    assert_eq!(order, vec![2, 3, 0, 1]);
    assert_eq!(gather(&values, &order), vec!["small", "small", "big", "big"]);
}

#[test]
fn partition_splits_and_keeps_order() {
    let rows = vec![7u64, 3, 9, 1, 4];
    let cond = vec![Some(true), Some(false), Some(true), Some(false), Some(false)];
    let p = partition(&rows, &cond).unwrap();
    assert_eq!(p.matched, Some(vec![7, 9]));
    assert_eq!(p.unmatched, Some(vec![3, 1, 4]));
}

#[test]
fn partition_single_true_group() {
    let p = partition(&vec![0, 1, 2], &vec![Some(true); 3]).unwrap();
    assert_eq!(p.matched, Some(vec![0, 1, 2]));
    assert_eq!(p.unmatched, None);
}

#[test]
fn partition_single_false_group() {
    let p = partition(&vec![0, 1, 2], &vec![Some(false); 3]).unwrap();
    assert_eq!(p.matched, None);
    assert_eq!(p.unmatched, Some(vec![0, 1, 2]));
}

#[test]
fn partition_of_empty_table() {
    let p = partition(&vec![], &vec![]).unwrap();
    assert_eq!(p.matched, None);
    assert_eq!(p.unmatched, None);
}

#[test]
fn partition_refuses_null() {
    let r = partition(&vec![0, 1, 2, 3], &vec![Some(true), Some(false), None, None]);
    assert_eq!(r.err(), Some(PartitionError::NonBoolean { position: 2 }));
}

#[test]
fn null_condition_aborts_evaluation() {
    let ev = Evaluation::new(3, 2);
    let ev = ev.step(&vec![Some(false), Some(true), Some(false)]).unwrap();
    let r = ev.step(&vec![None, Some(true)]);
    assert_eq!(r.err(), Some(PartitionError::NonBoolean { position: 0 }));
}

#[test]
fn all_true_first_condition_claims_every_row() {
    let ev = Evaluation::new(4, 3);
    let ev = ev.step(&vec![Some(true); 4]).unwrap();
    assert!(ev.remaining.is_empty());
    let ev = ev.step(&vec![]).unwrap();
    let ev = ev.step(&vec![]).unwrap();
    let outcome = ev.finish();
    assert_eq!(outcome.fragments.len(), 1);
    assert_eq!(outcome.fragments[0].branch, 0);
    assert_eq!(outcome.fragments[0].rows, vec![0, 1, 2, 3]);
    assert_eq!(outcome.output_order(), vec![0, 1, 2, 3]);
}

#[test]
fn no_condition_matches_so_default_takes_all() {
    let ev = Evaluation::new(3, 2);
    let ev = ev.step(&vec![Some(false); 3]).unwrap();
    let ev = ev.step(&vec![Some(false); 3]).unwrap();
    let outcome = ev.finish();
    assert_eq!(outcome.fragments.len(), 1);
    assert_eq!(outcome.fragments[0].branch, 2);
    assert_eq!(outcome.fragments[0].rows, vec![0, 1, 2]);
}

#[test]
fn only_default_branch() {
    let outcome = Evaluation::new(2, 0).finish();
    assert_eq!(outcome.fragments.len(), 1);
    assert_eq!(outcome.fragments[0].branch, 0);
    assert_eq!(outcome.output_order(), vec![0, 1]);
}

#[test]
fn empty_table_gives_empty_output() {
    let ev = Evaluation::new(0, 1);
    let outcome = ev.step(&vec![]).unwrap().finish();
    assert!(outcome.fragments.is_empty());
    assert!(outcome.output_order().is_empty());
}

#[test]
fn every_row_claimed_once_over_several_branches() {
    // value of each row; branches: v % 3 == 0, v % 2 == 0, default
    let v = [6u64, 1, 4, 9, 5, 2, 3, 8];
    let mut ev = Evaluation::new(v.len(), 2);
    let cond: Vec<Option<bool>> = ev.remaining.iter().map(|&r| Some(v[r as usize] % 3 == 0)).collect();
    ev = ev.step(&cond).unwrap();
    let cond: Vec<Option<bool>> = ev.remaining.iter().map(|&r| Some(v[r as usize] % 2 == 0)).collect();
    ev = ev.step(&cond).unwrap();
    let outcome = ev.finish();
    let rows: Vec<Vec<u64>> = outcome.fragments.iter().map(|f| f.rows.clone()).collect();
    assert_eq!(rows, vec![vec![0, 3, 6], vec![2, 5, 7], vec![1, 4]]);
    let mut all: Vec<u64> = rows.concat();
    all.sort();
    assert_eq!(all, (0..8).collect::<Vec<u64>>());
    let values = fragment_values(&outcome, |b, r| format!("{}:{}", b, v[r as usize]));
    let out = gather(&values, &outcome.output_order());
    assert_eq!(out, vec!["0:6", "2:1", "1:4", "0:9", "2:5", "1:2", "0:3", "1:8"]);
}

#[test]
fn permuted_rows_land_in_the_same_groups() {
    let rows = vec![0u64, 1, 2, 3, 4];
    let cond = vec![Some(true), Some(false), Some(false), Some(true), Some(false)];
    let perm = [3usize, 0, 4, 2, 1];
    let rows2: Vec<u64> = perm.iter().map(|&i| rows[i]).collect();
    let cond2: Vec<Option<bool>> = perm.iter().map(|&i| cond[i]).collect();
    let p1 = partition(&rows, &cond).unwrap();
    let p2 = partition(&rows2, &cond2).unwrap();
    let mut m1 = p1.matched.unwrap();
    let mut m2 = p2.matched.unwrap();
    m1.sort();
    m2.sort();
    assert_eq!(m1, m2);
    let mut u1 = p1.unmatched.unwrap();
    let mut u2 = p2.unmatched.unwrap();
    u1.sort();
    u2.sort();
    assert_eq!(u1, u2);
}

#[test]
fn branch_list_reads_pairs_and_default() {
    let b = BranchList::from_exprs(vec!["c0", "o0", "c1", "o1", "d"]).unwrap();
    assert_eq!(b.pairs, vec![("c0", "o0"), ("c1", "o1")]);
    assert_eq!(b.default, "d");
}

#[test]
fn branch_list_of_default_alone() {
    let b = BranchList::from_exprs(vec![5]).unwrap();
    assert!(b.pairs.is_empty());
    assert_eq!(b.default, 5);
}

#[test]
fn branch_list_refuses_even_length() {
    assert_eq!(
        BranchList::from_exprs(vec!["c0", "o0"]).err(),
        Some(BranchListError::EvenLength { len: 2 })
    );
    assert_eq!(
        BranchList::<String>::from_exprs(vec![]).err(),
        Some(BranchListError::EvenLength { len: 0 })
    );
}

#[test]
fn matched_rows_are_not_seen_by_later_branches() {
    let ev = Evaluation::new(5, 2);
    let ev = ev.step(&vec![Some(false), Some(true), Some(false), Some(true), Some(false)]).unwrap();
    assert_eq!(ev.fragments[0].rows, vec![1, 3]);
    assert_eq!(ev.remaining, vec![0, 2, 4]);
    // the second condition sees only the three remaining rows
    let ev = ev.step(&vec![Some(true), Some(true), Some(true)]).unwrap();
    assert_eq!(ev.fragments.len(), 2);
    assert_eq!(ev.fragments[1].branch, 1);
    assert_eq!(ev.fragments[1].rows, vec![0, 2, 4]);
    assert!(ev.remaining.is_empty());
    let outcome = ev.finish();
    assert_eq!(outcome.fragments.len(), 2);
    assert_eq!(outcome.output_order(), vec![2, 0, 3, 1, 4]);
}
