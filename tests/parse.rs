use dotenv_build::{parse_line, parse_lines, Error, Iter};

fn entry(k: &str, v: &str) -> Result<Option<(String, String)>, Error> {
    Ok(Some((k.to_string(), v.to_string())))
}

fn lines_of(text: &str) -> Vec<String> {
    text.lines().map(|l| l.to_string()).collect()
}

#[test]
fn double_quotes_process_escapes() {
    assert_eq!(parse_line("KEY=\"a\\\"b\""), entry("KEY", "a\"b"));
}

#[test]
fn single_quotes_are_literal() {
    assert_eq!(parse_line("KEY='a\\\"b'"), entry("KEY", "a\\\"b"));
}

#[test]
fn escapes_for_control_characters() {
    assert_eq!(parse_line("K=\"a\\nb\\tc\\rd\\\\e\""), entry("K", "a\nb\tc\rd\\e"));
}

#[test]
fn unknown_escape_gives_the_character() {
    assert_eq!(parse_line("K=\"\\q\""), entry("K", "q"));
}

#[test]
fn round_trip_plain_value() {
    assert_eq!(parse_line("RUST_LOG=debug"), entry("RUST_LOG", "debug"));
    assert_eq!(parse_line("A1_b=x y=z"), entry("A1_b", "x y=z"));
}

#[test]
fn round_trip_double_quoted_value() {
    assert_eq!(parse_line("TEST=\"hello world!\""), entry("TEST", "hello world!"));
    assert_eq!(parse_line("T=\"  padded 'x'  \""), entry("T", "  padded 'x'  "));
}

#[test]
fn round_trip_single_quoted_value() {
    assert_eq!(parse_line("T='say \"hi\" \\n'"), entry("T", "say \"hi\" \\n"));
}

#[test]
fn empty_value() {
    assert_eq!(parse_line("EMPTY="), entry("EMPTY", ""));
    assert_eq!(parse_line("EMPTY=\"\""), entry("EMPTY", ""));
    assert_eq!(parse_line("EMPTY=''"), entry("EMPTY", ""));
}

#[test]
fn whitespace_around_key_and_value_is_trimmed() {
    assert_eq!(parse_line("  KEY  =  some value \t"), entry("KEY", "some value"));
}

#[test]
fn inline_hash_is_part_of_an_unquoted_value() {
    assert_eq!(parse_line("COLOR=#ff0000 # red"), entry("COLOR", "#ff0000 # red"));
}

#[test]
fn export_prefix_is_dropped() {
    assert_eq!(parse_line("export B=\"two words\""), entry("B", "two words"));
    assert_eq!(parse_line("  export\t  C=3"), entry("C", "3"));
}

#[test]
fn export_as_a_key() {
    assert_eq!(parse_line("export=1"), entry("export", "1"));
    assert_eq!(parse_line("exporter=2"), entry("exporter", "2"));
}

#[test]
fn line_terminators_are_stripped() {
    assert_eq!(parse_line("A=1\n"), entry("A", "1"));
    assert_eq!(parse_line("A=\"1\"\r\n"), entry("A", "1"));
}

#[test]
fn blank_and_comment_lines_give_nothing() {
    assert_eq!(parse_line(""), Ok(None));
    assert_eq!(parse_line("   \t"), Ok(None));
    assert_eq!(parse_line("\n"), Ok(None));
    assert_eq!(parse_line("# comment"), Ok(None));
    assert_eq!(parse_line("   ## comment=with=equals"), Ok(None));
}

#[test]
fn missing_separator_is_malformed() {
    assert_eq!(
        parse_line("NOVALUESEPARATOR"),
        Err(Error::LineParse("NOVALUESEPARATOR".to_string()))
    );
}

#[test]
fn invalid_keys_are_malformed() {
    assert_eq!(parse_line("BAD-KEY=1"), Err(Error::LineParse("BAD-KEY=1".to_string())));
    assert_eq!(parse_line("=1"), Err(Error::LineParse("=1".to_string())));
    assert_eq!(parse_line("A B=1"), Err(Error::LineParse("A B=1".to_string())));
}

#[test]
fn unterminated_quotes_are_malformed() {
    assert_eq!(parse_line("A=\"open"), Err(Error::LineParse("A=\"open".to_string())));
    assert_eq!(parse_line("A='open"), Err(Error::LineParse("A='open".to_string())));
    assert_eq!(parse_line("A=\"a\\\""), Err(Error::LineParse("A=\"a\\\"".to_string())));
    assert_eq!(parse_line("A=\"a\" b"), Err(Error::LineParse("A=\"a\" b".to_string())));
    assert_eq!(parse_line("A='"), Err(Error::LineParse("A='".to_string())));
}

#[test]
fn end_to_end_file() {
    let lines = lines_of("A=1\n# comment\n\nexport B=\"two words\"\n");
    assert_eq!(
        parse_lines(lines),
        Ok(vec![
            ("A".to_string(), "1".to_string()),
            ("B".to_string(), "two words".to_string())
        ])
    );
}

#[test]
fn only_blanks_and_comments_give_no_entries() {
    let lines = lines_of("\n# one\n   \n  # two\n\n");
    assert_eq!(parse_lines(lines.clone()), Ok(vec![]));
    let mut it = Iter::new(lines);
    assert_eq!(it.next(), None);
    assert_eq!(it.next(), None);
}

#[test]
fn duplicate_keys_are_all_kept_in_order() {
    let lines = lines_of("A=1\nA=2\n");
    assert_eq!(
        parse_lines(lines),
        Ok(vec![("A".to_string(), "1".to_string()), ("A".to_string(), "2".to_string())])
    );
}

#[test]
fn malformed_line_fails_the_whole_file() {
    let lines = lines_of("A=1\nNOVALUESEPARATOR\nB=2\n");
    assert_eq!(parse_lines(lines), Err(Error::LineParse("NOVALUESEPARATOR".to_string())));
}

#[test]
fn sequence_ends_after_first_failure() {
    let lines = lines_of("A=1\n\nNOVALUESEPARATOR\nB=2\n");
    let mut it = Iter::new(lines);
    assert_eq!(it.next(), Some(Ok(("A".to_string(), "1".to_string()))));
    assert_eq!(it.next(), Some(Err(Error::LineParse("NOVALUESEPARATOR".to_string()))));
    assert_eq!(it.next(), None);
    assert_eq!(it.next(), None);
}

#[test]
fn sequence_yields_entries_in_file_order() {
    let lines = lines_of("X=1\n# c\nY='2'\nZ=\"3\"");
    let mut it = Iter::new(lines);
    assert_eq!(it.next(), Some(Ok(("X".to_string(), "1".to_string()))));
    assert_eq!(it.next(), Some(Ok(("Y".to_string(), "2".to_string()))));
    assert_eq!(it.next(), Some(Ok(("Z".to_string(), "3".to_string()))));
    assert_eq!(it.next(), None);
}
