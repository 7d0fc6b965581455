use tictactoe::parse::parse_move;

#[test]
fn parse_move_reads_two_numbers() {
    assert_eq!(parse_move("1,1").unwrap(), (1, 1));
    assert_eq!(parse_move("0,2").unwrap(), (0, 2));
    assert_eq!(parse_move("2,0").unwrap(), (2, 0));
}

#[test]
fn parse_move_trims_surrounding_whitespace() {
    assert_eq!(parse_move(" 1,2 ").unwrap(), (1, 2));
    assert_eq!(parse_move("1,2\n").unwrap(), (1, 2));
    assert_eq!(parse_move("\t 0,0 \r\n").unwrap(), (0, 0));
}

#[test]
fn parse_move_accepts_numbers_off_the_grid() {
    // range checking is the board's job, not the parser's
    assert_eq!(parse_move("7,42").unwrap(), (7, 42));
    assert_eq!(parse_move("007,00").unwrap(), (7, 0));
}

#[test]
fn parse_move_rejects_wrong_arity() {
    assert!(parse_move("1,1,1").is_err());
    assert!(parse_move("1").is_err());
    assert!(parse_move("").is_err());
    assert!(parse_move(",").is_err());
    assert!(parse_move("1,").is_err());
    assert!(parse_move(",1").is_err());
}

#[test]
fn parse_move_rejects_non_numeric_input() {
    assert!(parse_move("x,1").is_err());
    assert!(parse_move("a,b").is_err());
    assert!(parse_move("1, 2").is_err());
    assert!(parse_move("-1,0").is_err());
    assert!(parse_move("1.5,2").is_err());
}

#[test]
fn parse_move_rejects_overflow() {
    assert!(parse_move("99999999999999999999999999,1").is_err());
    assert_eq!(parse_move("18446744073709551615,0").unwrap(), (usize::MAX, 0));
    assert!(parse_move("18446744073709551616,0").is_err());
}
