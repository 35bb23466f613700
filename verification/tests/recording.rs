use pacman_sim::sim::{format_recording, parse_file};

// Helper function to simplify testing
fn check_parse_file(name: &str, input: &str, expected: Vec<(u64, char)>) {
    let result = parse_file(input);
    assert_eq!(result, expected, "Test failed: {}", name);
}

#[test]
fn test_parse_file_different_inputs() {
    check_parse_file(
        "valid input",
        "123,a\n456,b\n789,c\n",
        vec![(123, 'a'), (456, 'b'), (789, 'c')],
    );
    check_parse_file("empty input", "", vec![]);
    check_parse_file(
        "malformed lines",
        "123,a\ninvalid_line\n456,b\nno_comma\n789\n",
        vec![(123, 'a'), (456, 'b')],
    );
    check_parse_file(
        "invalid timestamp",
        "abc,a\n123,b\nnot_a_number,c\n456,d\n",
        vec![(123, 'b'), (456, 'd')],
    );
    check_parse_file(
        "empty character",
        "123,a\n456,\n789,c\n",
        vec![(123, 'a'), (789, 'c')],
    );
    check_parse_file(
        "unicode characters",
        "100,🎵\n200,ñ\n300,中\n",
        vec![(100, '🎵'), (200, 'ñ'), (300, '中')],
    );
    check_parse_file(
        "multiple characters",
        "123,abc\n456,xyz\n",
        vec![(123, 'a'), (456, 'x')],
    );
}

#[test]
fn parse_file_last_line_without_line_feed() {
    assert_eq!(parse_file("1,u\n2,q"), vec![(1, 'u'), (2, 'q')]);
}

#[test]
fn parse_file_strips_carriage_return_before_line_feed() {
    assert_eq!(parse_file("1,u\r\n2,\r\n3,q\r\n"), vec![(1, 'u'), (3, 'q')]);
    // Without a line feed after it, the carriage return is a character like any other.
    assert_eq!(parse_file("7,\r"), vec![(7, '\r')]);
}

#[test]
fn parse_file_number_forms() {
    assert_eq!(parse_file("+5,a\n"), vec![(5, 'a')]);
    assert_eq!(parse_file("007,a\n"), vec![(7, 'a')]);
    assert_eq!(parse_file("+,a\n"), vec![]);
    assert_eq!(parse_file("-5,a\n"), vec![]);
    assert_eq!(parse_file(" 5,a\n"), vec![]);
    assert_eq!(parse_file("5 ,a\n"), vec![]);
    assert_eq!(parse_file(",a\n"), vec![]);
    assert_eq!(parse_file("++5,a\n"), vec![]);
}

#[test]
fn parse_file_number_limits() {
    assert_eq!(
        parse_file("18446744073709551615,a\n"),
        vec![(18446744073709551615u64, 'a')]
    );
    assert_eq!(parse_file("18446744073709551616,a\n"), vec![]);
    assert_eq!(parse_file("99999999999999999999999,a\n1,b\n"), vec![(1, 'b')]);
    assert_eq!(parse_file("0,a\n"), vec![(0, 'a')]);
}

#[test]
fn parse_file_splits_at_first_comma() {
    assert_eq!(parse_file("1,,x\n"), vec![(1, ',')]);
    assert_eq!(parse_file("1,a,b\n"), vec![(1, 'a')]);
    assert_eq!(parse_file("\n\n3,c\n\n"), vec![(3, 'c')]);
}

#[test]
fn format_recording_writes_one_line_per_record() {
    let recording: Vec<(u64, char)> = vec![(0, 'r'), (3, 'd'), (9, 'q')];
    assert_eq!(format_recording(&recording), "0,r\n3,d\n9,q\n");
    assert_eq!(format_recording(&Vec::new()), "");
}

#[test]
fn format_recording_writes_numbers_in_decimal() {
    let recording: Vec<(u64, char)> = vec![(10, 'u'), (1205, 'l'), (18446744073709551615u64, 'q')];
    assert_eq!(
        format_recording(&recording),
        "10,u\n1205,l\n18446744073709551615,q\n"
    );
}

#[test]
fn format_then_parse_gives_the_recording_back() {
    let recording: Vec<(u64, char)> =
        vec![(0, 'u'), (0, 'p'), (17, 'n'), (100, '中'), (4000000000, 'q')];
    let text = format_recording(&recording);
    assert_eq!(parse_file(&text), recording);
}
