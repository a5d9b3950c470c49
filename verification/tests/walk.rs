use h3_hrx::dit::walk::{Phase, Walk};

/// Every phase of a run, each answered by `answer`, up to the end or the error that stopped it.
fn phases(walk: &Walk, answer: fn(Phase) -> bool) -> (Vec<Phase>, Option<String>) {
    let mut seen = vec![walk.begin()];
    while *seen.last().unwrap() != Phase::Finished {
        let now = *seen.last().unwrap();
        match walk.next(now, answer(now)) {
            Ok(next) => seen.push(next),
            Err(e) => return (seen, Some(e.message())),
        }
    }
    (seen, None)
}

#[test]
fn a_plain_run_opens_runs_and_closes_each_step() {
    let walk = Walk::new(2, 2, false, false, false).unwrap();
    assert_eq!(
        phases(&walk, |_| false),
        (
            vec![
                Phase::Opening(0),
                Phase::Blocks(0),
                Phase::Closing(0),
                Phase::Opening(1),
                Phase::Blocks(1),
                Phase::Closing(1),
                Phase::Finished,
            ],
            None
        )
    );
}

#[test]
fn a_cached_run_asks_after_the_first_block_and_waits_before_it_reports() {
    let walk = Walk::new(2, 2, true, true, true).unwrap();
    let skips = |phase: Phase| phase == Phase::FirstBlock(1);
    assert_eq!(
        phases(&walk, skips),
        (
            vec![
                Phase::Opening(0),
                Phase::FirstBlock(0),
                Phase::Rest { step: 0, skip: false },
                Phase::Closing(0),
                Phase::Wait(1),
                Phase::Progress(1),
                Phase::Opening(1),
                Phase::FirstBlock(1),
                Phase::Rest { step: 1, skip: true },
                Phase::Closing(1),
                Phase::Wait(2),
                Phase::Progress(2),
                Phase::Finished,
            ],
            None
        )
    );
}

#[test]
fn a_caller_stops_a_run_after_a_completed_step() {
    let walk = Walk::new(5, 5, false, false, true).unwrap();
    let (seen, stopped) = phases(&walk, |phase| phase == Phase::Progress(2));
    assert_eq!(seen.last(), Some(&Phase::Progress(2)));
    assert_eq!(seen.iter().filter(|p| matches!(p, Phase::Closing(_))).count(), 2);
    assert_eq!(stopped, Some("cancelled".to_string()));
}

#[test]
fn the_two_schedules_must_be_of_one_length() {
    let Err(e) = Walk::new(8, 7, false, false, false) else { panic!("accepted") };
    assert_eq!(e.message(), "the two schedules differ in length");
    assert_eq!(Walk::new(0, 0, true, true, true).unwrap().begin(), Phase::Finished);
}
