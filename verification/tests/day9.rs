use puzzles::day9::Problem;

const SAMPLE: &str = "2333133121414131402";

#[test]
fn day9_test_sample_part_1() {
    let problem = Problem::from_string(SAMPLE);

    assert_eq!(1928, problem.part_1());
}

#[test]
fn day9_test_sample_part_2() {
    let problem = Problem::from_string(SAMPLE);

    assert_eq!(2858, problem.part_2());
}
