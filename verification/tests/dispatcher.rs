use cmdui::dispatch;

fn strs(v: &[&str]) -> Vec<String> {
    v.iter().map(|s| s.to_string()).collect()
}

#[test]
fn single_letter_prefix_is_accepted_as_identifier() {
    let (cmd, args) = dispatch(&strs(&["r"]), &strs(&["run", "help"]));
    assert_eq!(cmd, "r");
    assert_eq!(args, Vec::<String>::new());
}

#[test]
fn two_word_identifier_with_argument() {
    let templates = strs(&["set attr1 <bool>", "set attr2 <int>", "run"]);
    let (cmd, args) = dispatch(&strs(&["set", "attr1", "on"]), &templates);
    assert_eq!(cmd, "set attr1");
    assert_eq!(args, strs(&["on"]));
}

#[test]
fn placeholder_shaped_token_is_never_consumed() {
    let templates = strs(&["set attr1 <bool>"]);
    let (cmd, args) = dispatch(&strs(&["set", "<bool>"]), &templates);
    assert_eq!(cmd, "set");
    assert_eq!(args, strs(&["<bool>"]));
}

#[test]
fn empty_tokens_are_skipped_not_consumed() {
    let templates = strs(&["run"]);
    let (cmd, args) = dispatch(&strs(&["", "run", ""]), &templates);
    assert_eq!(cmd, "run");
    assert_eq!(args, Vec::<String>::new());
}

#[test]
fn unmatched_token_stops_the_walk() {
    let templates = strs(&["run"]);
    let (cmd, args) = dispatch(&strs(&["xyz", "abc"]), &templates);
    assert_eq!(cmd, "");
    assert_eq!(args, strs(&["xyz", "abc"]));
}

#[test]
fn blank_input_gives_empty_identifier_and_arguments() {
    let (cmd, args) = dispatch(&strs(&[]), &strs(&["run"]));
    assert_eq!(cmd, "");
    assert_eq!(args, Vec::<String>::new());
}

#[test]
fn identifier_stops_where_no_template_matches_extension() {
    let templates = strs(&["set attr1 <bool>"]);
    let (cmd, args) = dispatch(&strs(&["set", "attr9", "on"]), &templates);
    assert_eq!(cmd, "set");
    assert_eq!(args, strs(&["attr9", "on"]));
}
