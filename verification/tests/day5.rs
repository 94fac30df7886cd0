use puzzles::day5::Problem;

const SAMPLE: &str = "47|53\n\
                      97|13\n\
                      97|61\n\
                      97|47\n\
                      75|29\n\
                      61|13\n\
                      75|53\n\
                      29|13\n\
                      97|29\n\
                      53|29\n\
                      61|53\n\
                      97|53\n\
                      61|29\n\
                      47|13\n\
                      75|47\n\
                      97|75\n\
                      47|61\n\
                      75|61\n\
                      47|29\n\
                      75|13\n\
                      53|13\n\
                      \n\
                      75,47,61,53,29\n\
                      97,61,53,29,13\n\
                      75,29,13\n\
                      75,97,47,61,53\n\
                      61,13,29\n\
                      97,13,75,29,47";

#[test]
fn day5_test_sample_part_1() {
    assert_eq!(143, Problem::from_string(SAMPLE).part_1());
}

#[test]
fn day5_test_sample_part_2() {
    assert_eq!(123, Problem::from_string(SAMPLE).part_2());
}
