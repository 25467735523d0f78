use grid_puzzles::schematic::parse_schematic;
use grid_puzzles::schematic::schematic_part_1;
use grid_puzzles::schematic::schematic_part_2;
use grid_puzzles::schematic::touches;
use grid_puzzles::schematic::Coord;

static EXAMPLE: &[u8] = b"467..114..\n\
...*......\n\
..35..633.\n\
......#...\n\
617*......\n\
.....+.58.\n\
..592.....\n\
......755.\n\
...$.*....\n\
.664.598..";

#[test]
fn schematic_example_part_1_is_4361() {
    let sch = parse_schematic(EXAMPLE).expect("all numbers fit");
    assert_eq!(schematic_part_1(&sch), Some(4361));
}

#[test]
fn schematic_example_part_2_is_467835() {
    let sch = parse_schematic(EXAMPLE).expect("all numbers fit");
    assert_eq!(schematic_part_2(&sch), Some(467835));
}

#[test]
fn corner_symbol_touches_diagonally() {
    let sch = parse_schematic(b"1.\n.*").expect("all numbers fit");
    assert_eq!(schematic_part_1(&sch), Some(1));
    assert_eq!(schematic_part_2(&sch), Some(0));
}

#[test]
fn one_gear_between_two_numbers() {
    let sch = parse_schematic(b"12.34\n..*..").expect("all numbers fit");
    assert_eq!(schematic_part_1(&sch), Some(46));
    assert_eq!(schematic_part_2(&sch), Some(408));
}

#[test]
fn parser_reads_values_and_cells() {
    let sch = parse_schematic(b"467..114..").expect("all numbers fit");
    assert_eq!(sch.numbers.len(), 2);
    assert_eq!(sch.numbers[0].value, 467);
    assert_eq!(sch.numbers[0].cells.len(), 3);
    assert_eq!(sch.numbers[0].cells[0], Coord { x: 0, y: 0 });
    assert_eq!(sch.numbers[0].cells[2], Coord { x: 2, y: 0 });
    assert_eq!(sch.numbers[1].value, 114);
    assert_eq!(sch.numbers[1].cells[0], Coord { x: 5, y: 0 });
    assert!(sch.symbols.is_empty());
}

#[test]
fn parser_keeps_leading_zero_cells() {
    let sch = parse_schematic(b"007").expect("all numbers fit");
    assert_eq!(sch.numbers.len(), 1);
    assert_eq!(sch.numbers[0].value, 7);
    assert_eq!(sch.numbers[0].cells.len(), 3);
}

#[test]
fn parser_records_symbols_not_blanks() {
    let sch = parse_schematic(b"..*.#\n. 1\t.").expect("all numbers fit");
    assert_eq!(sch.symbols.len(), 2);
    assert_eq!(sch.symbols[0].pos, Coord { x: 2, y: 0 });
    assert_eq!(sch.symbols[0].ch, b'*');
    assert_eq!(sch.symbols[1].pos, Coord { x: 4, y: 0 });
    assert_eq!(sch.symbols[1].ch, b'#');
    assert_eq!(sch.numbers.len(), 1);
    assert_eq!(sch.numbers[0].cells[0], Coord { x: 2, y: 1 });
}

#[test]
fn empty_grid_sums_to_zero() {
    let sch = parse_schematic(b"").expect("nothing to overflow");
    assert!(sch.numbers.is_empty());
    assert!(sch.symbols.is_empty());
    assert_eq!(schematic_part_1(&sch), Some(0));
    assert_eq!(schematic_part_2(&sch), Some(0));
}

#[test]
fn number_wider_than_u64_is_rejected() {
    assert!(parse_schematic(b"99999999999999999999*").is_none());
    assert!(parse_schematic(b"18446744073709551615*").is_some());
}

#[test]
fn number_at_row_end_is_flushed() {
    let sch = parse_schematic(b"*13\n..7").expect("all numbers fit");
    assert_eq!(sch.numbers.len(), 2);
    assert_eq!(sch.numbers[0].value, 13);
    assert_eq!(sch.numbers[1].value, 7);
    assert_eq!(schematic_part_1(&sch), Some(13));
}

#[test]
fn a_number_counts_once_with_many_symbols() {
    let sch = parse_schematic(b"*5*").expect("all numbers fit");
    assert_eq!(schematic_part_1(&sch), Some(5));
}

#[test]
fn a_number_serves_two_gears() {
    let sch = parse_schematic(b"2*3*4").expect("all numbers fit");
    assert_eq!(schematic_part_2(&sch), Some(2 * 3 + 3 * 4));
}

#[test]
fn gear_with_three_neighbours_contributes_nothing() {
    let sch = parse_schematic(b"1.2\n.*.\n3..").expect("all numbers fit");
    assert_eq!(schematic_part_2(&sch), Some(0));
}

#[test]
fn touching_is_symmetric_and_reflexive() {
    let a = Coord { x: 3, y: 4 };
    let b = Coord { x: 4, y: 5 };
    let c = Coord { x: 5, y: 4 };
    assert!(touches(a, a));
    assert!(touches(a, b));
    assert!(touches(b, a));
    assert!(!touches(a, c));
}

#[test]
fn answers_ignore_parse_order() {
    let sch = parse_schematic(EXAMPLE).expect("all numbers fit");
    let mut reordered = parse_schematic(EXAMPLE).expect("all numbers fit");
    reordered.numbers.reverse();
    reordered.symbols.reverse();
    assert_eq!(schematic_part_1(&sch), schematic_part_1(&reordered));
    assert_eq!(schematic_part_2(&sch), schematic_part_2(&reordered));
}

#[test]
fn parsing_twice_gives_identical_output() {
    let first = parse_schematic(EXAMPLE).expect("all numbers fit");
    let second = parse_schematic(EXAMPLE).expect("all numbers fit");
    assert_eq!(first.symbols, second.symbols);
    assert_eq!(first.numbers.len(), second.numbers.len());
    for (a, b) in first.numbers.iter().zip(second.numbers.iter()) {
        assert_eq!(a.value, b.value);
        assert_eq!(a.cells, b.cells);
    }
    assert_eq!(schematic_part_1(&first), schematic_part_1(&second));
    assert_eq!(schematic_part_2(&first), schematic_part_2(&second));
}
