use grid_puzzles::cards::card_part_1;
use grid_puzzles::cards::card_part_2;
use grid_puzzles::cards::count_cards;
use grid_puzzles::cards::count_matches;
use grid_puzzles::cards::get_matching_amount;
use grid_puzzles::cards::get_points;
use grid_puzzles::cards::make_cards;
use grid_puzzles::cards::parse;
use grid_puzzles::cards::parse_row;
use grid_puzzles::cards::propagate_copies;
use grid_puzzles::cards::Card;

static EXAMPLE: &[u8] = b"Card 1: 41 48 83 86 17 | 83 86  6 31 17  9 48 53\n\
Card 2: 13 32 20 16 61 | 61 30 68 82 17 32 24 19\n\
Card 3:  1 21 53 59 44 | 69 82 63 72 16 21 14  1\n\
Card 4: 41 92 73 84 69 | 59 84 76 51 58  5 54 83\n\
Card 5: 87 83 26 28 32 | 88 30 70 12 93 22 82 36\n\
Card 6: 31 18 13 56 72 | 74 77 10 23 35 67 36 11";

#[test]
fn parse_row_splits_both_sides() {
    let (winning, attempts) = parse_row(b"Card 1: 41 48 83 86 17 | 83 86  6 31 17  9 48 53")
        .expect("well-formed line");
    assert_eq!(winning, vec![41, 48, 83, 86, 17]);
    assert_eq!(attempts, vec![83, 86, 6, 31, 17, 9, 48, 53]);
}

#[test]
fn parse_row_empty_attempts() {
    let (winning, attempts) = parse_row(b"Card 9: 1 2 3 |").expect("well-formed line");
    assert_eq!(winning, vec![1, 2, 3]);
    assert_eq!(attempts, Vec::<u64>::new());
}

#[test]
fn parse_row_missing_colon_is_rejected() {
    assert!(parse_row(b"Card 1 41 48 | 83 86").is_none());
}

#[test]
fn parse_row_missing_bar_is_rejected() {
    assert!(parse_row(b"Card 1: 41 48 83 86").is_none());
}

#[test]
fn parse_row_non_numeric_token_is_rejected() {
    assert!(parse_row(b"Card 1: 41 x8 | 83").is_none());
}

#[test]
fn parse_row_huge_number_is_rejected() {
    assert!(parse_row(b"Card 1: 18446744073709551616 | 1").is_none());
}

#[test]
fn parse_row_largest_number_is_accepted() {
    let (winning, _) = parse_row(b"Card 1: 18446744073709551615 | 1").expect("fits in u64");
    assert_eq!(winning, vec![u64::MAX]);
}

#[test]
fn parse_accepts_the_example() {
    let cards = parse(EXAMPLE).expect("well-formed input");
    assert_eq!(cards.len(), 6);
    assert_eq!(cards[5].0, vec![31, 18, 13, 56, 72]);
}

#[test]
fn parse_rejects_one_bad_line() {
    assert!(parse(b"Card 1: 1 | 2\nno separators here").is_none());
}

#[test]
fn parse_rejects_trailing_newline() {
    assert!(parse(b"Card 1: 1 | 2\n").is_none());
}

#[test]
fn parse_rejects_empty_input() {
    assert!(parse(b"").is_none());
}

#[test]
fn carriage_returns_are_whitespace() {
    let cards = parse(b"Card 1: 1 | 1\r\nCard 2: 2 | 3").expect("well-formed input");
    assert_eq!(cards.len(), 2);
    assert_eq!(cards[0].1, vec![1]);
    assert_eq!(cards[1].1, vec![3]);
}

#[test]
fn points_double_per_match() {
    let cards = parse(EXAMPLE).expect("well-formed input");
    let per_card: Vec<u64> = cards
        .iter()
        .map(|c| get_points((c.0.clone(), c.1.clone())).expect("small score"))
        .collect();
    assert_eq!(per_card, vec![8, 2, 2, 1, 0, 0]);
}

#[test]
fn card_example_part_1_scores_13() {
    let cards = parse(EXAMPLE).expect("well-formed input");
    assert_eq!(card_part_1(&cards), Some(13));
}

#[test]
fn card_example_part_2_counts_30() {
    let cards = parse(EXAMPLE).expect("well-formed input");
    assert_eq!(card_part_2(make_cards(cards)), Some(30));
}

#[test]
fn card_example_copy_counts() {
    let cards = parse(EXAMPLE).expect("well-formed input");
    let propagated = propagate_copies(make_cards(cards)).expect("counters fit");
    let counts: Vec<u64> = propagated.iter().map(|c| c.copies).collect();
    assert_eq!(counts, vec![1, 2, 4, 8, 14, 1]);
    assert_eq!(count_cards(propagated), Some(30));
}

#[test]
fn no_match_card_scores_zero_and_keeps_one_copy() {
    let cards = parse(b"Card 1: 1 2 3 | 4 5 6").expect("well-formed input");
    assert_eq!(card_part_1(&cards), Some(0));
    assert_eq!(card_part_2(make_cards(cards)), Some(1));
}

#[test]
fn duplicate_attempts_count_individually() {
    let (winning, attempts) = parse_row(b"Card 1: 5 | 5 5 7").expect("well-formed line");
    assert_eq!(count_matches(&winning, &attempts), 2);
    assert_eq!(get_points((winning, attempts)), Some(2));
}

#[test]
fn matching_amount_reads_one_card() {
    let card = Card { winning: vec![41, 48, 83, 86, 17], attempts: vec![83, 86, 6, 31, 17, 9, 48, 53], copies: 1 };
    assert_eq!(get_matching_amount(&card), 4);
}

#[test]
fn sixty_five_matches_overflow_the_score() {
    let winning: Vec<u64> = vec![7];
    let attempts: Vec<u64> = vec![7; 65];
    assert_eq!(get_points((winning.clone(), attempts.clone())), None);
    let shorter: Vec<u64> = vec![7; 64];
    assert_eq!(get_points((winning, shorter)), Some(1u64 << 63));
}

#[test]
fn count_cards_sums_copies() {
    let cards = vec![
        Card { winning: vec![], attempts: vec![], copies: 3 },
        Card { winning: vec![], attempts: vec![], copies: 4 },
    ];
    assert_eq!(count_cards(cards), Some(7));
}

#[test]
fn count_cards_reports_overflow() {
    let cards = vec![
        Card { winning: vec![], attempts: vec![], copies: u64::MAX },
        Card { winning: vec![], attempts: vec![], copies: 1 },
    ];
    assert_eq!(count_cards(cards), None);
}

#[test]
fn solving_twice_gives_identical_output() {
    let first = parse(EXAMPLE).expect("well-formed input");
    let second = parse(EXAMPLE).expect("well-formed input");
    assert_eq!(first, second);
    let p1a = card_part_1(&first);
    let p1b = card_part_1(&second);
    assert_eq!(p1a, p1b);
    let p2a = card_part_2(make_cards(first));
    let p2b = card_part_2(make_cards(second));
    assert_eq!(p2a, p2b);
}
