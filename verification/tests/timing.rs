use rle_bitmap_compare::timing::{next_run, RunStep};

fn steps(repeats: usize) -> Vec<RunStep> {
    let mut all: Vec<RunStep> = Vec::new();
    while next_run(all.len(), repeats) != RunStep::Stop {
        all.push(next_run(all.len(), repeats));
    }
    all
}

#[test]
fn one_warmup_and_then_the_timed_runs() {
    assert_eq!(steps(0), vec![RunStep::Warmup]);
    assert_eq!(steps(2), vec![RunStep::Warmup, RunStep::Timed, RunStep::Timed]);
    assert_eq!(steps(5).len(), 6);
    assert_eq!(next_run(6, 5), RunStep::Stop);
    assert_eq!(next_run(usize::MAX, usize::MAX), RunStep::Timed);
}
