use mini_stark::constraint::{Column, Constraint};
use mini_stark::field::BaseFelt;
use mini_stark::prover::{
    composed_column_count, fold_into_rows, validate, ProofOptions, ProofSession, ProvingError, Stage, TraceInfo,
};
use mini_stark::u256::U256;

fn felt(v: u32) -> BaseFelt {
    BaseFelt::new(U256::from(v))
}

fn info(ext: usize) -> TraceInfo {
    TraceInfo { num_base_columns: 2, num_extension_columns: ext, trace_len: 4 }
}

/// next.a = curr.b, next.b = curr.a + curr.b
fn fibonacci_constraints() -> Vec<Constraint> {
    vec![
        0usize.next().sub(&1usize.curr()),
        1usize.next().sub(&0usize.curr().add(&1usize.curr())),
    ]
}

fn fibonacci_rows(n: usize) -> Vec<Vec<BaseFelt>> {
    let mut rows = vec![vec![felt(1), felt(1)]];
    for i in 1..n {
        let prev = rows[i - 1].clone();
        rows.push(vec![prev[1], prev[0].add(prev[1])]);
    }
    rows
}

#[test]
fn options_hold_their_values() {
    let o = ProofOptions::new(20, 4);
    assert_eq!(o.num_queries, 20);
    assert_eq!(o.blowup_factor, 4);
}

#[test]
fn satisfied_trace_passes_validation() {
    assert_eq!(validate(&fibonacci_constraints(), &fibonacci_rows(8), 2), Ok(()));
    assert_eq!(validate(&fibonacci_constraints(), &vec![], 2), Ok(()));
}

#[test]
fn broken_trace_names_the_step() {
    let mut rows = fibonacci_rows(8);
    rows[5][1] = felt(0);
    assert_eq!(
        validate(&fibonacci_constraints(), &rows, 2),
        Err(ProvingError::UnsatisfiedConstraint { step: 4 })
    );
}

#[test]
fn blowup_factor_is_checked() {
    let r = ProofSession::start(ProofOptions::new(20, 4), info(0), 8, 4);
    assert_eq!(
        r.err(),
        Some(ProvingError::BlowupFactorTooLarge { ce_blowup_factor: 8, lde_blowup_factor: 4 })
    );
    assert!(ProofSession::start(ProofOptions::new(20, 4), info(0), 4, 4).is_ok());
}

#[test]
fn two_roots_without_extension() {
    let mut s = ProofSession::start(ProofOptions::new(20, 4), info(0), 2, 4).unwrap();
    assert_eq!(s.commit_base([1; 32]), Ok(()));
    assert_eq!(s.commit_extension(None), Ok(()));
    assert_eq!(s.check_composition_degree(7, 7), Ok(()));
    assert_eq!(s.commit_composition([3; 32]), Ok(()));
    let proof = s.finish().unwrap();
    assert_eq!(proof.commitments, vec![[1; 32], [3; 32]]);
}

#[test]
fn three_roots_with_extension() {
    let mut s = ProofSession::start(ProofOptions::new(20, 4), info(1), 2, 4).unwrap();
    s.commit_base([1; 32]).unwrap();
    s.commit_extension(Some([2; 32])).unwrap();
    s.check_composition_degree(7, 7).unwrap();
    s.commit_composition([3; 32]).unwrap();
    let proof = s.finish().unwrap();
    assert_eq!(proof.commitments, vec![[1; 32], [2; 32], [3; 32]]);
    assert_eq!(proof.options, ProofOptions::new(20, 4));
}

#[test]
fn degree_mismatch_stops_before_commitment() {
    let mut s = ProofSession::start(ProofOptions::new(20, 4), info(0), 2, 4).unwrap();
    s.commit_base([1; 32]).unwrap();
    s.commit_extension(None).unwrap();
    assert_eq!(
        s.check_composition_degree(8, 7),
        Err(ProvingError::CompositionDegreeMismatch { computed: 8, declared: 7 })
    );
    assert_eq!(s.stage, Stage::Failed);
    assert!(!s.degree_checked);
    assert_eq!(s.commit_composition([3; 32]), Err(ProvingError::OutOfOrder));
    assert_eq!(s.commitments.len(), 1);
    assert!(s.finish().is_err());
}

#[test]
fn stages_cannot_be_skipped() {
    let mut s = ProofSession::start(ProofOptions::new(20, 4), info(0), 2, 4).unwrap();
    assert_eq!(s.commit_extension(None), Err(ProvingError::OutOfOrder));
    assert_eq!(s.check_composition_degree(1, 1), Err(ProvingError::OutOfOrder));
    assert_eq!(s.commit_composition([0; 32]), Err(ProvingError::OutOfOrder));
    assert_eq!(s.stage, Stage::CommitBase);
    s.commit_base([1; 32]).unwrap();
    assert_eq!(s.commit_base([1; 32]), Err(ProvingError::OutOfOrder));
    assert_eq!(s.commitments.len(), 1);
}

#[test]
fn composed_evaluations_fold_into_rows() {
    let values: Vec<BaseFelt> = (1u32..=7).map(felt).collect();
    let rows = fold_into_rows(&values, 3);
    assert_eq!(rows.len(), 3);
    assert_eq!(rows[0], vec![felt(1), felt(2), felt(3)]);
    assert_eq!(rows[1], vec![felt(4), felt(5), felt(6)]);
    assert_eq!(rows[2], vec![felt(7)]);
    assert_eq!(fold_into_rows(&values, 1).len(), 7);
    assert!(fold_into_rows(&vec![], 4).is_empty());
    assert_eq!(composed_column_count(32, 8), 4);
}
