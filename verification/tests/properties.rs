use puzzles::day12::{Plot, Problem};

#[test]
fn single_cell_perimeter_is_four() {
    // a lone cell has no shared edges
    let regions = Plot::from_string("A").regions();
    assert_eq!(1, regions.len());
    assert_eq!(1, regions[0].area());
    assert_eq!(4, regions[0].perimeter());
    assert_eq!(4, regions[0].sides());
}

#[test]
fn rectangle_sides_are_four() {
    // solid rectangles of several dimensions all have four sides
    assert_eq!(4, Plot::from_string("AA\nAA\nAA").regions()[0].sides());
    assert_eq!(4, Plot::from_string("AAAA").regions()[0].sides());
    assert_eq!(4, Plot::from_string("AAA\nAAA").regions()[0].sides());
}

#[test]
fn regions_partition_the_grid() {
    // region areas add up to the number of grid cells, nothing shared
    let grid = "AAAA\nBBCD\nBBCC\nEEEC";
    let regions = Plot::from_string(grid).regions();
    let total: u32 = regions.iter().map(|r| r.area()).sum();
    assert_eq!(16, total);
    for r in &regions {
        for p in &r.positions {
            let mut owners = 0;
            for r2 in &regions {
                if r2.positions.iter().any(|q| q.x == p.x && q.y == p.y) {
                    owners += 1;
                }
            }
            assert_eq!(1, owners);
        }
    }
}

#[test]
fn metrics_are_repeatable() {
    // the metrics depend only on the position set
    let regions = Plot::from_string("AAA\nA.A").regions();
    let r = &regions[0];
    assert_eq!(r.area(), r.area());
    assert_eq!(r.perimeter(), r.perimeter());
    assert_eq!(r.sides(), r.sides());
}

#[test]
fn empty_grid_prices_are_zero() {
    let p = Problem::from_string("");
    assert_eq!(0, p.part_1());
    assert_eq!(0, p.part_2());
}

#[test]
fn empty_columns_have_zero_distance() {
    let p = puzzles::day1::Problem::from_string(String::new());
    assert_eq!(0, p.part_1());
    assert_eq!(0, p.part_2());
}

#[test]
fn stone_splits_keep_leading_zeros_out() {
    // 1000 has four digits: it splits into 10 and 0
    let stones = puzzles::day11::Stone::new(1000).blink();
    assert_eq!(2, stones.elements.len());
    assert_eq!(10, stones.elements[0].number);
    assert_eq!(0, stones.elements[1].number);
    // a zero stone becomes a single one
    let one = puzzles::day11::Stone::new(0).blink();
    assert_eq!(1, one.elements.len());
    assert_eq!(1, one.elements[0].number);
    // an odd digit count multiplies by 2024
    let tripled = puzzles::day11::Stone::new(3).blink();
    assert_eq!(1, tripled.elements.len());
    assert_eq!(6072, tripled.elements[0].number);
}

#[test]
fn single_blink_counts_match_the_split() {
    let stones = puzzles::day11::Stones::from_string("0 1 10 99 999");
    assert_eq!(7, stones.blink_count(1));
}

#[test]
fn concat_operator_joins_digits() {
    let ops = [
        puzzles::day7::Operator::Add,
        puzzles::day7::Operator::Mul,
        puzzles::day7::Operator::Concat,
    ];
    assert_eq!(
        true,
        puzzles::day7::Equation::from_string("156: 15 6").is_solvable(&ops)
    );
    assert_eq!(
        true,
        puzzles::day7::Equation::from_string("7290: 6 8 6 15").is_solvable(&ops)
    );
}
