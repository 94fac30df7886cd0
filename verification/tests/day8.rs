use puzzles::day8::Problem;

const SAMPLE: &str = r#"............
........0...
.....0......
.......0....
....0.......
......A.....
............
............
........A...
.........A..
............
............"#;

#[test]
fn day8_test_sample_part_1() {
    let problem = Problem::from_string(SAMPLE);

    assert_eq!(14, problem.part_1());
}

#[test]
fn day8_test_sample_part_2() {
    let problem = Problem::from_string(SAMPLE);

    assert_eq!(34, problem.part_2());
}
