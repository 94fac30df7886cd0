use puzzles::day3::Problem;

#[test]
fn day3_test_sample_part_1() {
    assert_eq!(
        161,
        Problem::from_string(
            "xmul(2,4)%&mul[3,7]!@^do_not_mul(5,5)+mul(32,64]then(mul(11,8)mul(8,5))"
        )
        .part_1()
    );
}

#[test]
fn day3_test_sample_part_2() {
    assert_eq!(
        48,
        Problem::from_string(
            "xmul(2,4)&mul[3,7]!^don't()_mul(5,5)+mul(32,64](mul(11,8)undo()?mul(8,5))"
        )
        .part_2()
    );
}
