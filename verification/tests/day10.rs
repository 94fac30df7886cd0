use puzzles::day10::{Problem, TrailMap};

const SAMPLE_PART1_SIMPLIFIED1: &str = r#"...0...
...1...
...2...
6543456
7.....7
8.....8
9.....9"#;

const SAMPLE_PART1_SIMPLIFIED2: &str = r#"..90..9
...1.98
...2..7
6543456
765.987
876....
987...."#;

const SAMPLE_PART2_SIMPLIFIED1: &str = r#".....0.
..4321.
..5..2.
..6543.
..7..4.
..8765.
..9...."#;

const SAMPLE_PART2_SIMPLIFIED2: &str = r#"..90..9
...1.98
...2..7
6543456
765.987
876....
987...."#;

const SAMPLE: &str = r#"89010123
78121874
87430965
96549874
45678903
32019012
01329801
10456732"#;

#[test]
fn day10_test_sample_part_1() {
    assert_eq!(2, Problem::from_string(SAMPLE_PART1_SIMPLIFIED1).part_1());
    assert_eq!(4, Problem::from_string(SAMPLE_PART1_SIMPLIFIED2).part_1());
    assert_eq!(36, Problem::from_string(SAMPLE).part_1());
}

#[test]
fn day10_test_sample_part_2() {
    assert_eq!(3, Problem::from_string(SAMPLE_PART2_SIMPLIFIED1).part_2());
    assert_eq!(13, Problem::from_string(SAMPLE_PART2_SIMPLIFIED2).part_2());
    assert_eq!(81, Problem::from_string(SAMPLE).part_2());
}

#[test]
fn test_map_neighbours() {
    let map = TrailMap::from_string(SAMPLE);
    assert_eq!(vec![(1, 0), (0, 1)], map.neighbours_of((0, 0)));
    assert_eq!(
        vec![(0, 1), (2, 1), (1, 0), (1, 2)],
        map.neighbours_of((1, 1))
    );
    assert_eq!(vec![(6, 7), (7, 6)], map.neighbours_of((7, 7)));
}
