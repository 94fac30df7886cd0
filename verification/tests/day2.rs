use puzzles::day2::{Problem, Report};

const SAMPLE: &str = "7 6 4 2 1
                      1 2 7 8 9
                      9 7 6 2 1
                      1 3 2 4 5
                      8 6 4 4 1
                      1 3 6 7 9";

#[test]
fn day2_test_sample_part_1() {
    assert_eq!(2, Problem::from_string(SAMPLE).part_1());
}

#[test]
fn day2_test_sample_part_2() {
    assert_eq!(4, Problem::from_string(SAMPLE).part_2());
}

#[test]
fn test_unsafe_level_index() {
    // Sample reports
    assert_eq!(None, Report::new(vec![7, 6, 4, 2, 1]).unsafe_level_index());
    assert_eq!(Some(1), Report::new(vec![1, 2, 7, 8, 9]).unsafe_level_index());
    assert_eq!(Some(2), Report::new(vec![9, 7, 6, 2, 1]).unsafe_level_index());
    assert_eq!(Some(1), Report::new(vec![1, 3, 2, 4, 5]).unsafe_level_index());
    assert_eq!(Some(2), Report::new(vec![8, 6, 4, 4, 1]).unsafe_level_index());
    assert_eq!(None, Report::new(vec![1, 3, 6, 7, 9]).unsafe_level_index());

    // Other reports
    assert_eq!(None, Report::new(vec![1, 4, 7, 8, 10]).unsafe_level_index());
    assert_eq!(Some(0), Report::new(vec![1, 1, 7, 8, 10]).unsafe_level_index());
    assert_eq!(Some(1), Report::new(vec![1, 4, 4, 8, 10]).unsafe_level_index());
}

#[test]
fn test_is_safe_tolerated() {
    // Sample reports
    assert_eq!(true, Report::new(vec![7, 6, 4, 2, 1]).is_safe_tolerated());
    assert_eq!(false, Report::new(vec![1, 2, 7, 8, 9]).is_safe_tolerated());
    assert_eq!(false, Report::new(vec![9, 7, 6, 2, 1]).is_safe_tolerated());
    assert_eq!(true, Report::new(vec![1, 3, 2, 4, 5]).is_safe_tolerated());
    assert_eq!(true, Report::new(vec![8, 6, 4, 4, 1]).is_safe_tolerated());
    assert_eq!(true, Report::new(vec![1, 3, 6, 7, 9]).is_safe_tolerated());

    // Other
    assert_eq!(true, Report::new(vec![1, 1, 2, 3, 4]).is_safe_tolerated());
    assert_eq!(false, Report::new(vec![1, 1, 1, 3, 4]).is_safe_tolerated());
    assert_eq!(true, Report::new(vec![4, 4, 3, 2, 1]).is_safe_tolerated());
    assert_eq!(false, Report::new(vec![4, 4, 4, 2, 1]).is_safe_tolerated());
    assert_eq!(true, Report::new(vec![2, 3, 3, 6, 7]).is_safe_tolerated());
    assert_eq!(false, Report::new(vec![3, 3, 3, 6, 7]).is_safe_tolerated());

    // This case was causing the faulty first attempts (gradient was based on first two levels)
    assert_eq!(true, Report::new(vec![3, 1, 2, 3]).is_safe_tolerated());

    // Case where comparing first with last to determine gradient would fail
    assert_eq!(true, Report::new(vec![5, 2, 3, 4]).is_safe_tolerated());

    // From actual input
    assert_eq!(
        true,
        Report::new(vec![47, 49, 50, 52, 53, 54, 57, 59]).is_safe_tolerated()
    );
}

#[test]
fn test_without_level() {
    assert_eq!(
        Report::new(vec![2, 3]),
        Report::new(vec![1, 2, 3]).without_level(0),
    );
    assert_eq!(
        Report::new(vec![1, 3]),
        Report::new(vec![1, 2, 3]).without_level(1),
    );
    assert_eq!(
        Report::new(vec![1, 2]),
        Report::new(vec![1, 2, 3]).without_level(2),
    );
}
