use puzzles::day11::Problem;

const SAMPLE: &str = r#"125 17"#;

#[test]
fn day11_test_sample_part_1() {
    assert_eq!(55312, Problem::from_string(SAMPLE).part_1());
}
