use sudoku::cli::{arg_handler, format_board, parse_board, parse_row, Command};

fn args(items: &[&str]) -> Vec<String> {
    items.iter().map(|s| s.to_string()).collect()
}

#[test]
fn flags_select_commands() {
    assert_eq!(arg_handler(&args(&["sudoku", "r", "hard"])), Command::Random);
    assert_eq!(arg_handler(&args(&["sudoku", "f", "p.txt"])), Command::File);
    assert_eq!(arg_handler(&args(&["sudoku", "g"])), Command::Generate);
    assert_eq!(arg_handler(&args(&["sudoku", "m"])), Command::Manual);
    assert_eq!(arg_handler(&args(&["sudoku", "x"])), Command::Unknown);
    assert_eq!(arg_handler(&args(&["sudoku"])), Command::Unknown);
}

#[test]
fn board_text_skips_line_breaks() {
    let mut text = String::new();
    for r in 0..9 {
        for c in 0..9 {
            text.push(char::from_digit(((r + c) % 10) as u32, 10).unwrap());
        }
        text.push_str("\r\n");
    }
    let chars: Vec<char> = text.chars().collect();
    let b = parse_board(&chars).unwrap();
    assert_eq!(b.len(), 9);
    assert_eq!(b[0][0], 0);
    assert_eq!(b[2][5], 7);
    assert_eq!(b[8][8], 6);
    let out = format_board(&b);
    assert_eq!(out.len(), 81);
    assert_eq!(out[0], b'0');
    assert_eq!(out[9 * 2 + 5], b'7');
}

#[test]
fn short_or_non_digit_text_is_rejected() {
    let short: Vec<char> = "1234\n5678".chars().collect();
    assert_eq!(parse_board(&short), None);
    let mut bad: Vec<char> = vec!['0'; 81];
    bad[40] = 'x';
    assert_eq!(parse_board(&bad), None);
    // a bad character after the first 81 is never read
    let mut long: Vec<char> = vec!['0'; 81];
    long.push('x');
    assert!(parse_board(&long).is_some());
}

#[test]
fn manual_rows_need_nine_digits() {
    let ok: Vec<char> = "530070000".chars().collect();
    assert_eq!(parse_row(&ok), Some(vec![5, 3, 0, 0, 7, 0, 0, 0, 0]));
    let short: Vec<char> = "53007000".chars().collect();
    assert_eq!(parse_row(&short), None);
    let bad: Vec<char> = "53007a000".chars().collect();
    assert_eq!(parse_row(&bad), None);
}
