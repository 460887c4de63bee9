use std::cell::RefCell;

use autotune::cache::PersistedStore;
use autotune::key::{AutotuneKey, ConvTranspose2dAutotuneKey, DType, Dims2, EligibilityPolicy};
use autotune::tuner::{select_fastest, CandidateOutcome, DeviceId, LocalTuner, TuneError, Tuner};

fn key(batch: usize, height: usize, width: usize) -> AutotuneKey {
    let one = Dims2 { h: 1, w: 1 };
    let zero = Dims2 { h: 0, w: 0 };
    AutotuneKey::ConvTranspose2d(ConvTranspose2dAutotuneKey {
        kernel_size: Dims2 { h: 3, w: 3 },
        stride: one,
        padding: zero,
        padding_out: zero,
        dilation: one,
        groups: 1,
        in_channels: 3,
        out_channels: 8,
        height,
        width,
        batch_size: batch,
        has_bias: true,
        dtype: DType::F32,
    })
}

const POLICY: EligibilityPolicy = EligibilityPolicy { max_batched_pixels: 4096 };
const DEVICE: DeviceId = DeviceId { type_id: 0, index_id: 0 };

#[test]
fn fastest_breaks_ties_by_lowest_index() {
    let m = CandidateOutcome::Measured;
    let failed = CandidateOutcome::Failed;
    let ineligible = CandidateOutcome::Ineligible;
    assert_eq!(select_fastest(&vec![m(5), m(3), m(3)]), Some(1));
    assert_eq!(select_fastest(&vec![failed, ineligible, m(9)]), Some(2));
    assert_eq!(select_fastest(&vec![m(2), m(2)]), Some(0));
    assert_eq!(select_fastest(&vec![failed, ineligible]), None);
    assert_eq!(select_fastest(&vec![]), None);
}

#[test]
fn tunes_once_then_reuses_decision() {
    let mut tuner = Tuner::new(DEVICE, POLICY, 3);
    let calls = RefCell::new(Vec::new());
    let bench = |i: usize, j: usize| {
        calls.borrow_mut().push((i, j));
        Some(if i == 1 { 10 } else { 20 })
    };
    let k = key(1, 32, 32);
    let first = tuner.execute(&k, 2, bench, |i| i * 100).ok().unwrap();
    assert_eq!(first.index, 1);
    assert_eq!(first.output, 100);
    assert_eq!(first.outcomes, vec![CandidateOutcome::Measured(20), CandidateOutcome::Measured(10)]);
    assert_eq!(calls.borrow().len(), 6);
    for _ in 0..3 {
        let again = tuner
            .execute(&k, 2, |_i: usize, _j: usize| -> Option<u64> { panic!("benchmarked again") }, |i| i * 100)
            .ok()
            .unwrap();
        assert_eq!(again.index, 1);
        assert_eq!(again.output, 100);
        assert!(again.outcomes.is_empty());
    }
    assert_eq!(tuner.fastest(&k), Some(1));
}

#[test]
fn output_is_the_selected_candidates_own() {
    let mut tuner = Tuner::new(DEVICE, POLICY, 2);
    let inputs = vec![1i64, 2, 3];
    let run = |i: usize| -> Vec<i64> {
        if i == 0 {
            inputs.iter().map(|x| x * 2).collect()
        } else {
            inputs.iter().map(|x| x + x).collect()
        }
    };
    let direct = run(0);
    let r = tuner.execute(&key(1, 8, 8), 2, |i: usize, _j: usize| Some(if i == 0 { 1 } else { 2 }), run);
    let e = r.ok().unwrap();
    assert_eq!(e.index, 0);
    assert_eq!(e.output, direct);
}

#[test]
fn ineligible_candidate_never_benchmarked() {
    let mut tuner = Tuner::new(DEVICE, POLICY, 2);
    let k = key(5, 32, 32);
    let bench = |i: usize, _j: usize| -> Option<u64> {
        assert!(i != 1, "ineligible candidate benchmarked");
        Some(50)
    };
    let e = tuner.execute(&k, 2, bench, |i| i).ok().unwrap();
    assert_eq!(e.index, 0);
    assert_eq!(e.outcomes, vec![CandidateOutcome::Measured(50), CandidateOutcome::Ineligible]);
}

#[test]
fn failing_candidate_is_skipped() {
    let mut tuner = Tuner::new(DEVICE, POLICY, 3);
    let bench = |i: usize, _j: usize| if i == 0 { None } else { Some(40) };
    let e = tuner.execute(&key(1, 16, 16), 2, bench, |i| i + 7).ok().unwrap();
    assert_eq!(e.index, 1);
    assert_eq!(e.output, 8);
    assert_eq!(e.outcomes, vec![CandidateOutcome::Failed, CandidateOutcome::Measured(40)]);
    assert_eq!(tuner.fastest(&key(1, 16, 16)), Some(1));
}

#[test]
fn failure_on_a_later_run_excludes_candidate() {
    let mut tuner = Tuner::new(DEVICE, POLICY, 3);
    let bench = |i: usize, j: usize| if i == 0 && j == 2 { None } else { Some(1 + i as u64) };
    let e = tuner.execute(&key(1, 16, 16), 2, bench, |i| i).ok().unwrap();
    assert_eq!(e.index, 1);
    assert_eq!(e.outcomes[0], CandidateOutcome::Failed);
}

#[test]
fn no_eligible_candidate_fails_and_caches_nothing() {
    let mut tuner = Tuner::new(DEVICE, EligibilityPolicy { max_batched_pixels: 0 }, 2);
    let k = key(1, 32, 32);
    // the direct candidate is always eligible, so the only set in which no
    // candidate is eligible is the empty one
    let r = tuner.execute(&k, 0, |_i: usize, _j: usize| Some(1), |i| i);
    match r {
        Err(TuneError::NoViableCandidate { key: failed, outcomes }) => {
            assert_eq!(failed, k);
            assert!(outcomes.is_empty());
        }
        Ok(_) => panic!("expected failure"),
    }
    assert_eq!(tuner.fastest(&k), None);
    assert!(tuner.to_store(0).records.is_empty());
}

#[test]
fn all_candidates_failing_is_retryable() {
    let mut tuner = Tuner::new(DEVICE, POLICY, 2);
    let k = key(1, 32, 32);
    let r = tuner.execute(&k, 2, |_i: usize, _j: usize| None, |i| i);
    match r {
        Err(TuneError::NoViableCandidate { key: failed, outcomes }) => {
            assert_eq!(failed, k);
            assert_eq!(outcomes, vec![CandidateOutcome::Failed, CandidateOutcome::Failed]);
        }
        Ok(_) => panic!("expected failure"),
    }
    assert_eq!(tuner.fastest(&k), None);
    let e = tuner.execute(&k, 2, |i: usize, _j: usize| Some(3 - i as u64), |i| i).ok().unwrap();
    assert_eq!(e.index, 1);
}

#[test]
fn median_decides_between_candidates() {
    let mut tuner = Tuner::new(DEVICE, POLICY, 4);
    // candidate 0: warm-up 1, then 50, 50, 50; candidate 1: warm-up 900, then 10, 90, 20
    let times = [[1u64, 50, 50, 50], [900, 10, 90, 20]];
    let e = tuner.execute(&key(1, 32, 32), 2, |i: usize, j: usize| Some(times[i][j]), |i| i).ok().unwrap();
    assert_eq!(e.index, 1);
    assert_eq!(e.outcomes, vec![CandidateOutcome::Measured(50), CandidateOutcome::Measured(20)]);
}

#[test]
fn conv_transpose_scenario() {
    let mut tuner = Tuner::new(DEVICE, EligibilityPolicy { max_batched_pixels: 4096 }, 3);
    let k = key(1, 32, 32);
    let gemm_faster = |i: usize, _j: usize| Some(if i == 1 { 7 } else { 9 });
    let e = tuner.execute(&k, 2, gemm_faster, |i| i).ok().unwrap();
    assert_eq!(e.index, 1);
    assert_eq!(e.outcomes.len(), 2);
    for _ in 0..4 {
        let again = tuner.execute(&key(1, 32, 32), 2, |_i: usize, _j: usize| Some(1), |i| i).ok().unwrap();
        assert_eq!(again.index, 1);
        assert!(again.outcomes.is_empty());
    }
    let taller = key(1, 33, 32);
    let retuned = tuner.execute(&taller, 2, |i: usize, _j: usize| Some(if i == 0 { 1 } else { 2 }), |i| i).ok().unwrap();
    assert_eq!(retuned.index, 0);
    assert_eq!(retuned.outcomes.len(), 2);
    assert_eq!(tuner.fastest(&k), Some(1));
    assert_eq!(tuner.fastest(&taller), Some(0));
}

#[test]
fn cached_index_outside_candidates_retunes() {
    let store = PersistedStore { checksum: 1, records: vec![(key(1, 32, 32), 5)] };
    let mut tuner = Tuner::with_store(DEVICE, POLICY, 2, &store, 1);
    assert_eq!(tuner.fastest(&key(1, 32, 32)), Some(5));
    let e = tuner.execute(&key(1, 32, 32), 2, |i: usize, _j: usize| Some(1 + i as u64), |i| i).ok().unwrap();
    assert_eq!(e.index, 0);
    assert_eq!(tuner.fastest(&key(1, 32, 32)), Some(0));
}

#[test]
fn store_with_other_checksum_is_ignored() {
    let store = PersistedStore { checksum: 1, records: vec![(key(1, 32, 32), 1)] };
    let tuner = Tuner::with_store(DEVICE, POLICY, 2, &store, 2);
    assert_eq!(tuner.fastest(&key(1, 32, 32)), None);
    let trusted = Tuner::with_store(DEVICE, POLICY, 2, &store, 1);
    assert_eq!(trusted.fastest(&key(1, 32, 32)), Some(1));
}

#[test]
fn devices_keep_separate_decisions() {
    let mut local = LocalTuner::new(POLICY, 2);
    let gpu0 = DeviceId { type_id: 1, index_id: 0 };
    let gpu1 = DeviceId { type_id: 1, index_id: 1 };
    let k = key(1, 32, 32);
    assert!(!local.knows(&gpu0));
    let a = local.execute(&gpu0, None, 0, &k, 2, |i: usize, _j: usize| Some(1 + i as u64), |i| i).ok().unwrap();
    assert!(local.knows(&gpu0));
    assert!(!local.knows(&gpu1));
    assert_eq!(a.index, 0);
    let b = local.execute(&gpu1, None, 0, &k, 2, |i: usize, _j: usize| Some(5 - i as u64), |i| i).ok().unwrap();
    assert_eq!(b.index, 1);
    assert_eq!(b.outcomes.len(), 2);
    let again = local
        .execute(&gpu0, None, 0, &k, 2, |_i: usize, _j: usize| -> Option<u64> { panic!("benchmarked again") }, |i| i)
        .ok()
        .unwrap();
    assert_eq!(again.index, 0);
}

#[test]
fn device_store_read_on_first_use_only() {
    let mut local = LocalTuner::new(POLICY, 2);
    let gpu = DeviceId { type_id: 2, index_id: 0 };
    let k = key(1, 32, 32);
    let stale = PersistedStore { checksum: 10, records: vec![(k, 1)] };
    let e = local.execute(&gpu, Some(&stale), 11, &k, 2, |i: usize, _j: usize| Some(1 + i as u64), |i| i).ok().unwrap();
    assert_eq!(e.index, 0);
    assert_eq!(e.outcomes.len(), 2);
    let other = DeviceId { type_id: 2, index_id: 1 };
    let fresh = PersistedStore { checksum: 11, records: vec![(k, 1)] };
    let f = local
        .execute(&other, Some(&fresh), 11, &k, 2, |_i: usize, _j: usize| -> Option<u64> { panic!("store not used") }, |i| i)
        .ok()
        .unwrap();
    assert_eq!(f.index, 1);
    let g = local.execute(&gpu, Some(&fresh), 11, &k, 2, |_i: usize, _j: usize| Some(1), |i| i).ok().unwrap();
    assert_eq!(g.index, 0);
    let saved = local.to_store(&gpu, 11).unwrap();
    assert_eq!(saved.checksum, 11);
    assert_eq!(saved.records, vec![(k, 0)]);
    assert!(local.to_store(&DeviceId { type_id: 9, index_id: 9 }, 11).is_none());
}

#[test]
fn stored_ineligible_decision_is_retuned() {
    // a store written under a larger threshold chose the column-to-image
    // candidate for a key that the current policy excludes it for
    let k = key(5, 32, 32);
    let store = PersistedStore { checksum: 4, records: vec![(k, 1)] };
    let mut tuner = Tuner::with_store(DEVICE, POLICY, 2, &store, 4);
    assert_eq!(tuner.fastest(&k), Some(1));
    let bench = |i: usize, _j: usize| -> Option<u64> {
        assert!(i != 1, "ineligible candidate benchmarked");
        Some(30)
    };
    let run = |i: usize| -> usize {
        assert!(i != 1, "ineligible candidate run");
        i
    };
    let e = tuner.execute(&k, 2, bench, run).ok().unwrap();
    assert_eq!(e.index, 0);
    assert_eq!(e.outcomes, vec![CandidateOutcome::Measured(30), CandidateOutcome::Ineligible]);
    assert_eq!(tuner.fastest(&k), Some(0));
}

#[test]
fn stored_ineligible_decision_is_retuned_per_device() {
    let mut local = LocalTuner::new(POLICY, 2);
    let k = key(5, 32, 32);
    let store = PersistedStore { checksum: 4, records: vec![(k, 1)] };
    let bench = |i: usize, _j: usize| -> Option<u64> {
        assert!(i != 1, "ineligible candidate benchmarked");
        Some(30)
    };
    let e = local.execute(&DEVICE, Some(&store), 4, &k, 2, bench, |i| i).ok().unwrap();
    assert_eq!(e.index, 0);
    assert_eq!(e.outcomes.len(), 2);
    assert_eq!(local.to_store(&DEVICE, 4).unwrap().records, vec![(k, 0)]);
}

#[test]
fn conv_transpose_scenario_from_store() {
    let k = key(1, 32, 32);
    let store = PersistedStore { checksum: 21, records: vec![(k, 1)] };
    let mut local = LocalTuner::new(POLICY, 3);
    for _ in 0..3 {
        let e = local
            .execute(&DEVICE, Some(&store), 21, &k, 2, |_i: usize, _j: usize| -> Option<u64> { panic!("benchmarked") }, |i| i)
            .ok()
            .unwrap();
        assert_eq!(e.index, 1);
        assert!(e.outcomes.is_empty());
    }
    let taller = key(1, 33, 32);
    let e = local
        .execute(&DEVICE, None, 21, &taller, 2, |i: usize, _j: usize| Some(1 + i as u64), |i| i)
        .ok()
        .unwrap();
    assert_eq!(e.index, 0);
    assert_eq!(e.outcomes.len(), 2);
    let wider = key(1, 32, 33);
    let e = local
        .execute(&DEVICE, None, 21, &wider, 2, |i: usize, _j: usize| Some(9 - i as u64), |i| i)
        .ok()
        .unwrap();
    assert_eq!(e.index, 1);
    assert_eq!(e.outcomes.len(), 2);
}
