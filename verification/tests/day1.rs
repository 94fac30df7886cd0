use puzzles::day1::Problem;

#[test]
fn test_part_1() {
    assert_eq!(
        11,
        Problem::from_string(
            "3   4\n\
            4   3\n\
            2   5\n\
            1   3\n\
            3   9\n\
            3   3"
                .to_string(),
        )
        .part_1()
    );
}

#[test]
fn test_part_2() {
    assert_eq!(
        31,
        Problem::from_string(
            "3   4\n\
            4   3\n\
            2   5\n\
            1   3\n\
            3   9\n\
            3   3"
                .to_string(),
        )
        .part_2()
    );
}
