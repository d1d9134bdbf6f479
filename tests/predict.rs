use pelt::partition::total_order_key;
use pelt::{Candidate, Partition, PredictImpl, RunningSum};
use pelt::{Error, Pelt, SegmentCostFunction};

/// Least squared deviation of one column over `start..end`.
fn l2(signal: &[f64], start: usize, end: usize) -> f64 {
    let segment = &signal[start..end];
    let sum: f64 = segment.iter().sum();
    let sum_sqr: f64 = segment.iter().map(|v| v * v).sum();
    sum_sqr - sum * sum / segment.len() as f64
}

/// Runs the search on a one-column signal with the L2 loss and plain summation.
fn run(pelt: Pelt, signal: &[f64], penalty: f64) -> Result<Vec<usize>, Error> {
    PredictImpl::new(pelt).predict(
        signal.len(),
        |end: usize, starts: &Vec<Candidate>, _parallel: bool| {
            starts
                .iter()
                .map(|c| {
                    let total = f64::from_bits(c.sum.total) + l2(signal, c.start, end) + penalty;
                    RunningSum { total: total.to_bits(), compensation: 0 }
                })
                .collect()
        },
        |total: u64| (f64::from_bits(total) + penalty).to_bits(),
    )
}

fn two_levels() -> Vec<f64> {
    let mut signal = vec![0.0; 50];
    signal.extend(vec![10.0; 50]);
    signal
}

#[test]
fn proposed_indices() {
    assert_eq!(
        PredictImpl::new(Pelt::new().with_jump(5).with_minimum_segment_length(2))
            .proposed_indices(20),
        vec![5, 10, 15, 20]
    );

    assert_eq!(
        PredictImpl::new(Pelt::new().with_jump(5).with_minimum_segment_length(8))
            .proposed_indices(20),
        vec![10, 15, 20]
    );
}

#[test]
fn proposed_indices_off_grid_end() {
    assert_eq!(
        PredictImpl::new(Pelt::new().with_jump(5).with_minimum_segment_length(2))
            .proposed_indices(22),
        vec![5, 10, 15, 20, 22]
    );
    assert_eq!(
        PredictImpl::new(Pelt::new().with_jump(5).with_minimum_segment_length(12))
            .proposed_indices(7),
        vec![7]
    );
    assert_eq!(PredictImpl::new(Pelt::new()).proposed_indices(0), vec![0]);
}

#[test]
fn two_constant_segments() {
    let pelt = Pelt::new().with_segment_cost_function(SegmentCostFunction::L2);
    assert_eq!(run(pelt, &two_levels(), 10.0), Ok(vec![50, 100]));
}

#[test]
fn two_constant_segments_keep_zero() {
    let pelt = Pelt::new()
        .with_segment_cost_function(SegmentCostFunction::L2)
        .with_keep_initial_zero(true);
    assert_eq!(run(pelt, &two_levels(), 10.0), Ok(vec![0, 50, 100]));
}

#[test]
fn large_penalty_gives_one_segment() {
    let pelt = Pelt::new().with_segment_cost_function(SegmentCostFunction::L2);
    assert_eq!(run(pelt, &two_levels(), 1.0e9), Ok(vec![100]));
}

#[test]
fn repeated_runs_agree() {
    let pelt = Pelt::new().with_segment_cost_function(SegmentCostFunction::L2);
    let signal: Vec<f64> = (0..60).map(|i| ((i * 37) % 11) as f64 + if i < 30 { 0.0 } else { 20.0 }).collect();
    let first = run(pelt, &signal, 5.0);
    let second = run(pelt, &signal, 5.0);
    assert!(first.is_ok());
    assert_eq!(first, second);
}

#[test]
fn minimum_length_above_signal_length() {
    let pelt = Pelt::new().with_minimum_segment_length(8);
    assert_eq!(run(pelt, &[1.0, 2.0, 3.0, 4.0, 5.0], 1.0), Err(Error::NotEnoughPoints));
}

#[test]
fn admission_point_without_partition() {
    // With a minimum length above the jump, the start admitted at 15 is 5, which was never
    // a breakpoint
    let pelt = Pelt::new().with_jump(5).with_minimum_segment_length(8);
    assert_eq!(run(pelt, &two_levels()[..20], 1.0), Err(Error::NotEnoughPoints));
}

#[test]
fn first_breakpoint_too_short() {
    // With a jump of one the first breakpoint is 1, shorter than the minimum length of 2
    let pelt = Pelt::new().with_jump(1);
    assert_eq!(run(pelt, &two_levels(), 1.0), Err(Error::NotEnoughPoints));
}

#[test]
fn wrong_number_of_sums() {
    let result = PredictImpl::new(Pelt::new()).predict(
        20,
        |_end: usize, _starts: &Vec<Candidate>, _parallel: bool| Vec::new(),
        |total: u64| total,
    );
    assert_eq!(result, Err(Error::NotEnoughPoints));
}

#[test]
fn parallel_flag_follows_heuristic() {
    let seen = std::cell::RefCell::new(Vec::new());
    let result = PredictImpl::new(Pelt::new().with_jump(2)).predict(
        200,
        |_end: usize, starts: &Vec<Candidate>, parallel: bool| {
            seen.borrow_mut().push((starts.len(), parallel));
            starts
                .iter()
                .map(|c| RunningSum { total: (f64::from_bits(c.sum.total) + 1.0).to_bits(), compensation: 0 })
                .collect()
        },
        |total: u64| (f64::from_bits(total) + 1.0e9).to_bits(),
    );
    assert!(result.is_ok());
    for (count, parallel) in seen.borrow().iter() {
        assert_eq!(*parallel, *count >= 32);
    }
    assert!(seen.borrow().iter().any(|(_, parallel)| *parallel));
}

#[test]
fn order_key_follows_total_order() {
    let values = [f64::NEG_INFINITY, -3.5, -1.0, -0.0, 0.0, 1.0e-300, 2.0, f64::INFINITY];
    for pair in values.windows(2) {
        assert!(total_order_key(pair[0].to_bits()) < total_order_key(pair[1].to_bits()));
    }
    assert_eq!(total_order_key(0.0f64.to_bits()), 0);
    assert_eq!(total_order_key((-0.0f64).to_bits()), -1);
}

#[test]
fn partition_push() {
    let mut partition = Partition::default();
    assert_eq!(partition.loss_and_penalty_sum(), 0);
    let sum = RunningSum { total: 7.5f64.to_bits(), compensation: 1 };
    partition.push(4, sum);
    partition.push(9, sum);
    assert_eq!(partition.running_sum(), sum);
    assert_eq!(partition.loss_and_penalty_sum(), 7.5f64.to_bits());
    assert_eq!(partition.into_ends(), vec![4, 9]);
}

#[test]
fn pruned_starts_stay_below_threshold() {
    let signal = two_levels();
    let penalty = 10.0;
    let steps = std::cell::RefCell::new(Vec::new());
    let result = PredictImpl::new(Pelt::new().with_segment_cost_function(SegmentCostFunction::L2))
        .predict(
            signal.len(),
            |end: usize, starts: &Vec<Candidate>, _parallel: bool| {
                let sums: Vec<RunningSum> = starts
                    .iter()
                    .map(|c| {
                        let total = f64::from_bits(c.sum.total) + l2(&signal, c.start, end) + penalty;
                        RunningSum { total: total.to_bits(), compensation: 0 }
                    })
                    .collect();
                let offered: Vec<(usize, f64)> = starts
                    .iter()
                    .zip(sums.iter())
                    .map(|(c, s)| (c.start, f64::from_bits(s.total)))
                    .collect();
                steps.borrow_mut().push(offered);
                sums
            },
            |total: u64| (f64::from_bits(total) + penalty).to_bits(),
        );
    assert_eq!(result, Ok(vec![50, 100]));
    let steps = steps.into_inner();
    let mut dropped: Vec<usize> = Vec::new();
    for k in 0..steps.len() {
        // The start admitted at this breakpoint was never dropped before
        let admitted = steps[k][steps[k].len() - 1].0;
        assert!(!dropped.contains(&admitted));
        if k + 1 == steps.len() {
            break;
        }
        let best = steps[k].iter().map(|(_, total)| *total).fold(f64::INFINITY, f64::min);
        let next = &steps[k + 1];
        let kept: Vec<usize> = next[..next.len() - 1].iter().map(|(s, _)| *s).collect();
        for (start, total) in &steps[k] {
            if kept.contains(start) {
                assert!(*total < best + penalty);
            } else {
                assert!(*total >= best + penalty);
                dropped.push(*start);
            }
        }
    }
    assert!(!dropped.is_empty());
}
