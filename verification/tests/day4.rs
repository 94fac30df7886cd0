use puzzles::day4::Problem;

const SAMPLE: &str = "MMMSXXMASM\n\
                      MSAMXMSMSA\n\
                      AMXSXMAAMM\n\
                      MSAMASMSMX\n\
                      XMASAMXAMM\n\
                      XXAMMXXAMA\n\
                      SMSMSASXSS\n\
                      SAXAMASAAA\n\
                      MAMMMXMMMM\n\
                      MXMXAXMASX";

#[test]
fn day4_test_sample_part_1() {
    assert_eq!(18, Problem::from_string(SAMPLE).part_1());
}

#[test]
fn day4_test_sample_part_2() {
    assert_eq!(9, Problem::from_string(SAMPLE).part_2());
}

#[test]
fn test_char_at() {
    let problem = Problem::from_string(
        "123\n\
        456\n\
        789",
    );

    assert_eq!(Some(&'1'), problem.char_at(0, 0));
    assert_eq!(Some(&'2'), problem.char_at(1, 0));
    assert_eq!(Some(&'3'), problem.char_at(2, 0));
    assert_eq!(Some(&'4'), problem.char_at(0, 1));
    assert_eq!(Some(&'5'), problem.char_at(1, 1));
    assert_eq!(Some(&'6'), problem.char_at(2, 1));
    assert_eq!(Some(&'7'), problem.char_at(0, 2));
    assert_eq!(Some(&'8'), problem.char_at(1, 2));
    assert_eq!(Some(&'9'), problem.char_at(2, 2));
}
