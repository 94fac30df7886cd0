use puzzles::day6::Problem;

const SAMPLE: &str = "....#.....\n\
                      .........#\n\
                      ..........\n\
                      ..#.......\n\
                      .......#..\n\
                      ..........\n\
                      .#..^.....\n\
                      ........#.\n\
                      #.........\n\
                      ......#...";

#[test]
fn day6_test_sample_part_1() {
    let problem = Problem::from_string(SAMPLE);

    assert_eq!((4, 6), problem.position);
    assert_eq!(41, problem.part_1());
}

#[test]
fn day6_test_sample_part_2() {
    let problem = Problem::from_string(SAMPLE);

    assert_eq!(6, problem.part_2());
}
