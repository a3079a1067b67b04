use cmdui::expects_num_arguments;
use cmdui::opt_part;
use cmdui::parse_bool;
use cmdui::parse_int;
use cmdui::usize_to_string;

fn strs(v: &[&str]) -> Vec<String> {
    v.iter().map(|s| s.to_string()).collect()
}

#[test]
fn parse_int_reads_decimal() {
    assert_eq!(parse_int("42"), Ok(42));
    assert_eq!(parse_int("0"), Ok(0));
    assert_eq!(parse_int("+7"), Ok(7));
}

#[test]
fn parse_int_names_the_bad_input() {
    assert_eq!(parse_int("abc"), Err("Expected integer, got 'abc'".to_string()));
    assert_eq!(parse_int(""), Err("Expected integer, got ''".to_string()));
    assert_eq!(parse_int("+"), Err("Expected integer, got '+'".to_string()));
    assert_eq!(parse_int("4x"), Err("Expected integer, got '4x'".to_string()));
}

#[test]
fn parse_int_rejects_overflow() {
    let huge = "99999999999999999999999999";
    assert_eq!(
        parse_int(huge),
        Err(format!("Expected integer, got '{}'", huge))
    );
}

#[test]
fn parse_bool_accepts_all_spellings() {
    assert_eq!(parse_bool("on"), Ok(true));
    assert_eq!(parse_bool("true"), Ok(true));
    assert_eq!(parse_bool("1"), Ok(true));
    assert_eq!(parse_bool("off"), Ok(false));
    assert_eq!(parse_bool("false"), Ok(false));
    assert_eq!(parse_bool("0"), Ok(false));
}

#[test]
fn parse_bool_names_the_bad_input() {
    assert_eq!(parse_bool("maybe"), Err("Expected boolean, got 'maybe'".to_string()));
}

#[test]
fn expects_num_arguments_names_the_count() {
    assert_eq!(expects_num_arguments(&strs(&["a", "b"]), 2), Ok(()));
    assert_eq!(expects_num_arguments(&strs(&["a"]), 2), Err("Expected 2 arguments".to_string()));
    assert_eq!(expects_num_arguments(&strs(&[]), 12), Err("Expected 12 arguments".to_string()));
}

#[test]
fn opt_part_picks_optional_positionals() {
    let args = strs(&["first", "second"]);
    assert_eq!(opt_part(&args, 0), Some("first"));
    assert_eq!(opt_part(&args, 1), Some("second"));
    assert_eq!(opt_part(&args, 2), None);
}

#[test]
fn usize_renders_in_decimal() {
    assert_eq!(usize_to_string(0), "0");
    assert_eq!(usize_to_string(7), "7");
    assert_eq!(usize_to_string(120), "120");
}
