use codeboss::odometer::Odometer;

#[test]
fn starts_at_zero() {
    let odometer = Odometer::new(vec![2, 3]);
    assert_eq!(odometer.indices(), &[0, 0]);
}

#[test]
fn seek_visits_every_tuple_once() {
    let mut odometer = Odometer::new(vec![2, 3]);
    let mut seen: Vec<Vec<usize>> = Vec::new();
    for k in 0..6u64 {
        odometer.set_position(k);
        let tuple = odometer.indices().to_vec();
        assert!(tuple[0] < 2 && tuple[1] < 3);
        assert!(!seen.contains(&tuple));
        seen.push(tuple);
    }
    assert_eq!(
        seen,
        vec![vec![0, 0], vec![1, 0], vec![0, 1], vec![1, 1], vec![0, 2], vec![1, 2]]
    );
}

#[test]
fn advance_follows_seek_and_wraps() {
    let mut stepping = Odometer::new(vec![2, 3]);
    let mut seeking = Odometer::new(vec![2, 3]);
    for k in 0..6u64 {
        seeking.set_position(k);
        assert_eq!(stepping.indices(), seeking.indices());
        stepping.advance();
    }
    assert_eq!(stepping.indices(), &[0, 0]);
    stepping.advance();
    assert_eq!(stepping.indices(), &[1, 0]);
}

#[test]
fn seven_advances_from_zero() {
    let mut odometer = Odometer::new(vec![2, 3]);
    let mut seen: Vec<Vec<usize>> = vec![odometer.indices().to_vec()];
    for _ in 0..6 {
        odometer.advance();
        seen.push(odometer.indices().to_vec());
    }
    assert_eq!(
        seen,
        vec![
            vec![0, 0],
            vec![1, 0],
            vec![0, 1],
            vec![1, 1],
            vec![0, 2],
            vec![1, 2],
            vec![0, 0],
        ]
    );
}

#[test]
fn seek_is_mixed_radix() {
    let mut odometer = Odometer::new(vec![3, 4, 5]);
    odometer.set_position(47);
    assert_eq!(odometer.indices(), &[2, 3, 3]);
    odometer.set_position(59);
    assert_eq!(odometer.indices(), &[2, 3, 4]);
    odometer.advance();
    assert_eq!(odometer.indices(), &[0, 0, 0]);
}

#[test]
fn seek_past_the_end_wraps() {
    let mut odometer = Odometer::new(vec![2, 3]);
    odometer.set_position(6);
    assert_eq!(odometer.indices(), &[0, 0]);
    odometer.set_position(u64::MAX);
    assert_eq!(odometer.indices(), &[1, 1]);
}

#[test]
fn carry_runs_through_counts_of_one() {
    let mut odometer = Odometer::new(vec![1, 2, 1, 2]);
    odometer.advance();
    assert_eq!(odometer.indices(), &[0, 1, 0, 0]);
    odometer.advance();
    assert_eq!(odometer.indices(), &[0, 0, 0, 1]);
}

#[test]
fn no_slots_is_one_empty_tuple() {
    let mut odometer = Odometer::new(vec![]);
    odometer.set_position(5);
    odometer.advance();
    assert!(odometer.indices().is_empty());
}
