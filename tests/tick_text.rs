use realized_volatility::tick_text::{
    parse_filename, parse_i64, parse_tick_line, ticks_from_lines, FilenameError, InvalidTickLine,
};

#[test]
fn parse_i64_like_std() {
    for s in ["0", "42", "-42", "+7", "9223372036854775807", "-9223372036854775808", "007"] {
        assert_eq!(parse_i64(s), s.parse::<i64>().ok());
    }
    for s in ["", "-", "+", "1 2", "9223372036854775808", "-9223372036854775809", "12a", " 1", "99999999999999999999999999"] {
        assert_eq!(parse_i64(s), None);
        assert!(s.parse::<i64>().is_err());
    }
}

#[test]
fn tick_lines_are_trimmed() {
    assert_eq!(parse_tick_line("  197314\n"), Some(197314i64.to_be_bytes()));
    assert_eq!(parse_tick_line("\u{a0}-5\r\n"), Some((-5i64).to_be_bytes()));
    assert_eq!(parse_tick_line("1.5\n"), None);
}

#[test]
fn ticks_skip_the_header() {
    let lines: Vec<String> = ["ticks\n", "1\n", "-2\n", "3"].iter().map(|s| s.to_string()).collect();
    let ticks = ticks_from_lines(&lines).unwrap();
    assert_eq!(ticks, vec![1i64.to_be_bytes(), (-2i64).to_be_bytes(), 3i64.to_be_bytes()]);
    let bad: Vec<String> = ["ticks\n", "1\n", "x\n"].iter().map(|s| s.to_string()).collect();
    assert_eq!(ticks_from_lines(&bad), Err(InvalidTickLine { line: 2 }));
    assert_eq!(ticks_from_lines(&vec![]), Ok(vec![]));
}

#[test]
fn filenames_give_block_ranges() {
    assert_eq!(parse_filename("100-200.jsonl"), Ok((100, 200)));
    assert_eq!(parse_filename("data/substream_17-19.jsonl"), Ok((17, 19)));
    assert_eq!(parse_filename("a12x3-4.jsonl"), Ok((3, 4)));
    assert_eq!(parse_filename("1-2.jsonl.bak"), Ok((1, 2)));
    assert_eq!(parse_filename("1-2.json"), Err(FilenameError::NoMatch));
    assert_eq!(parse_filename("-2.jsonl"), Err(FilenameError::NoMatch));
    assert_eq!(parse_filename("99999999999999999999-1.jsonl"), Err(FilenameError::NumberTooLarge));
}
