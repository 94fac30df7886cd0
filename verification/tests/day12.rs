use puzzles::day12::{Plot, Problem};

const SAMPLE_SIMPLIFIED_1: &str = r#"AAAA
BBCD
BBCC
EEEC"#;

const SAMPLE_SIMPLIFIED2: &str = r#"OOOOO
OXOXO
OOOOO
OXOXO
OOOOO"#;

const SAMPLE: &str = r#"RRRRIICCFF
RRRRIICCCF
VVRRRCCFFF
VVRCCCJFFF
VVVVCJJCFE
VVIVCCJJEE
VVIIICJJEE
MIIIIIJJEE
MIIISIJEEE
MMMISSJEEE"#;

const SAMPLE_SIMPLIFIED3: &str = r#"EEEEE
EXXXX
EEEEE
EXXXX
EEEEE"#;

const SAMPLE_SIMPLIFIED4: &str = r#"AAAAAA
AAABBA
AAABBA
ABBAAA
ABBAAA
AAAAAA"#;

#[test]
fn day12_test_sample_part_1() {
    assert_eq!(140, Problem::from_string(SAMPLE_SIMPLIFIED_1).part_1());
    assert_eq!(772, Problem::from_string(SAMPLE_SIMPLIFIED2).part_1());
    assert_eq!(1930, Problem::from_string(SAMPLE).part_1());
}

#[test]
fn day12_test_sample_part_2() {
    assert_eq!(80, Problem::from_string(SAMPLE_SIMPLIFIED_1).part_2());
    assert_eq!(436, Problem::from_string(SAMPLE_SIMPLIFIED2).part_2());
    assert_eq!(236, Problem::from_string(SAMPLE_SIMPLIFIED3).part_2());
    assert_eq!(368, Problem::from_string(SAMPLE_SIMPLIFIED4).part_2());
    assert_eq!(1206, Problem::from_string(SAMPLE).part_2());
}

#[test]
fn test_region_sides() {
    assert_eq!(4, Plot::from_string("AAA").regions()[0].sides());
    assert_eq!(4, Plot::from_string("A\nA\nA").regions()[0].sides());
    assert_eq!(4, Plot::from_string("AA\nAA").regions()[0].sides());
    assert_eq!(6, Plot::from_string("AA\nA").regions()[0].sides());
    assert_eq!(6, Plot::from_string("AAA\nA").regions()[0].sides());

    let plot = Plot::from_string(
        "RRRR..\n\
         ..RRR.\n\
         ..R...",
    );
    assert_eq!('R', plot.regions()[1].plant);
    assert_eq!(10, plot.regions()[1].sides());
}
