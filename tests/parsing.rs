use traps::parse::{parse_traps_puzzle, parse_traps_puzzles};
use traps::puzzle::TrapsPuzzle;

#[test]
fn parse_single_puzzle() {
    let input = "3 2\n1 2 3\n";
    let puzzle = parse_traps_puzzle(input.as_bytes());
    assert_eq!(puzzle, Some(TrapsPuzzle {
        base_dmgs: vec![1,2,3],
        k: 2
    }));
}

#[test]
fn parse_multiple_puzzles() {
    let input = "2\n3 2\n1 2 3\n1 1\n42";
    let puzzles = parse_traps_puzzles(input.as_bytes());
    assert_eq!(puzzles, Some(vec![
        TrapsPuzzle {base_dmgs: vec![1,2,3], k: 2},
        TrapsPuzzle {base_dmgs: vec![42],    k: 1}
    ]))
}

#[test]
fn parse_accepts_windows_line_ends_and_extra_spaces() {
    let puzzle = parse_traps_puzzle("  2 0\r\n 10  20 \r\n".as_bytes());
    assert_eq!(puzzle, Some(TrapsPuzzle { base_dmgs: vec![10, 20], k: 0 }));
}

#[test]
fn parse_rejects_too_few_damages() {
    assert_eq!(parse_traps_puzzle("3 1\n1 2\n".as_bytes()), None);
}

#[test]
fn parse_rejects_more_skips_than_traps() {
    assert_eq!(parse_traps_puzzle("2 3\n1 2\n".as_bytes()), None);
}

#[test]
fn parse_rejects_empty_row() {
    assert_eq!(parse_traps_puzzle("0 0\n".as_bytes()), None);
}

#[test]
fn parse_rejects_stray_characters() {
    assert_eq!(parse_traps_puzzle("2 1\n1 2x\n".as_bytes()), None);
    assert_eq!(parse_traps_puzzle("2 1\n1 -2\n".as_bytes()), None);
}

#[test]
fn parse_rejects_number_too_large() {
    let text = format!("1 0\n{}0\n", usize::MAX);
    assert_eq!(parse_traps_puzzle(text.as_bytes()), None);
}

#[test]
fn parse_rejects_damages_whose_total_may_overflow() {
    let text = format!("2 0\n{} 1\n", usize::MAX);
    assert_eq!(parse_traps_puzzle(text.as_bytes()), None);
}

#[test]
fn parse_rejects_missing_puzzle() {
    assert_eq!(parse_traps_puzzles("2\n1 0\n5\n".as_bytes()), None);
}

#[test]
fn parse_zero_puzzles() {
    assert_eq!(parse_traps_puzzles("0\n".as_bytes()), Some(vec![]));
}

#[test]
fn new_checks_well_formedness() {
    assert_eq!(TrapsPuzzle::new(vec![1, 2], 2), Some(TrapsPuzzle { base_dmgs: vec![1, 2], k: 2 }));
    assert_eq!(TrapsPuzzle::new(vec![1, 2], 3), None);
    assert_eq!(TrapsPuzzle::new(vec![], 0), None);
    assert!(TrapsPuzzle { base_dmgs: vec![7], k: 0 }.is_valid());
    assert!(!TrapsPuzzle { base_dmgs: vec![usize::MAX], k: 0 }.is_valid());
}

#[test]
fn parse_rejects_damage_line_longer_than_n() {
    assert_eq!(parse_traps_puzzle("2 1\n1 2 3\n".as_bytes()), None);
}

#[test]
fn parse_rejects_damage_line_shorter_than_n() {
    assert_eq!(parse_traps_puzzle("2 1\n1\n2\n".as_bytes()), None);
}

#[test]
fn parse_rejects_header_and_damages_on_one_line() {
    assert_eq!(parse_traps_puzzle("2 1 1 2\n".as_bytes()), None);
}

#[test]
fn parse_list_keeps_puzzles_on_their_lines() {
    let puzzles = parse_traps_puzzles("2\n2 1\n1 2\n1 0\n5\n".as_bytes());
    assert_eq!(puzzles, Some(vec![
        TrapsPuzzle { base_dmgs: vec![1, 2], k: 1 },
        TrapsPuzzle { base_dmgs: vec![5], k: 0 },
    ]));
    assert_eq!(parse_traps_puzzles("2\n2 1\n1 2 3\n1 0\n5\n".as_bytes()), None);
}

#[test]
fn parse_rejects_count_line_with_more() {
    assert_eq!(parse_traps_puzzles("1 1\n1 0\n5\n".as_bytes()), None);
}
