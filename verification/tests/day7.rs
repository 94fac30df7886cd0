use puzzles::day7::{Equation, Operator, Problem};

const SAMPLE: &str = r#"190: 10 19
3267: 81 40 27
83: 17 5
156: 15 6
7290: 6 8 6 15
161011: 16 10 13
192: 17 8 14
21037: 9 7 18 13
292: 11 6 16 20"#;

#[test]
fn day7_test_sample_part_1() {
    let problem = Problem::from_string(SAMPLE);

    assert_eq!(3749, problem.part_1());
}

#[test]
fn day7_test_sample_part_2() {
    let problem = Problem::from_string(SAMPLE);

    assert_eq!(11387, problem.part_2());
}

#[test]
fn test_equation_is_solvable() {
    let operators = [Operator::Add, Operator::Mul];
    assert_eq!(
        true,
        Equation::from_string("190: 10 19").is_solvable(&operators)
    );
    assert_eq!(
        true,
        Equation::from_string("3267: 81 40 27").is_solvable(&operators)
    );
    assert_eq!(
        false,
        Equation::from_string("21037: 9 7 18 13").is_solvable(&operators)
    );
}
