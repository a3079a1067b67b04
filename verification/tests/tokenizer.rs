use cmdui::CommandLine;
use cmdui::CommandPart;
use cmdui::tokenize;

fn contents(line: &str) -> Vec<String> {
    tokenize(line).iter().map(|p| p.as_str().to_string()).collect()
}

#[test]
fn empty_line_yields_one_empty_token() {
    let toks = tokenize("");
    assert_eq!(toks.len(), 1);
    assert_eq!(toks[0].as_str(), "");
    assert!(!toks[0].is_error);
}

#[test]
fn space_only_line_tokens() {
    let toks = tokenize(" ");
    assert_eq!(toks.len(), 2);
    assert_eq!(toks[0].as_str(), "");
    assert_eq!(toks[1].as_str(), "");
    assert!(!toks[0].is_error && !toks[1].is_error);
}

#[test]
fn simple_words_split_on_spaces() {
    assert_eq!(contents("ab cd ef"), vec!["ab", "cd", "ef"]);
}

#[test]
fn trailing_space_adds_empty_token() {
    assert_eq!(contents("ab "), vec!["ab", ""]);
}

#[test]
fn double_space_yields_empty_middle_token() {
    assert_eq!(contents("a  b"), vec!["a", "", "b"]);
}

#[test]
fn quoted_token_keeps_space() {
    let toks = tokenize("'a b' c");
    assert_eq!(toks.len(), 2);
    assert_eq!(toks[0].as_str(), "a b");
    assert!(toks[0].is_quoted);
    assert!(!toks[0].is_error);
    assert_eq!(toks[1].as_str(), "c");
}

#[test]
fn quote_closing_at_line_end() {
    let toks = tokenize("x 'a b'");
    assert_eq!(toks.len(), 2);
    assert_eq!(toks[0].as_str(), "x");
    assert_eq!(toks[1].as_str(), "a b");
    assert!(!toks[1].is_error);
}

#[test]
fn unterminated_quote_takes_rest_of_line() {
    let toks = tokenize("'unterminated");
    assert_eq!(toks.len(), 1);
    assert_eq!(toks[0].as_str(), "unterminated");
    assert!(!toks[0].is_error);
}

#[test]
fn quote_followed_by_letter_is_error_then_scan_resumes() {
    let toks = tokenize("'bad'x");
    assert_eq!(toks.len(), 2);
    assert_eq!(toks[0].as_str(), "'bad");
    assert!(toks[0].is_error);
    assert_eq!(toks[1].as_str(), "x");
    assert!(!toks[1].is_error);
}

#[test]
fn stray_quote_inside_word_is_error() {
    let toks = tokenize("ab'c d");
    assert_eq!(toks.len(), 2);
    assert_eq!(toks[0].as_str(), "ab'c");
    assert!(toks[0].is_error);
    assert_eq!(toks[1].as_str(), "d");
}

#[test]
fn join_and_retokenize_reproduces_tokens() {
    let words = vec!["foo", "bar", "baz"];
    let line = words.join(" ");
    let toks = tokenize(&line);
    assert_eq!(toks.len(), words.len());
    for (t, w) in toks.iter().zip(words.iter()) {
        assert_eq!(t.as_str(), *w);
        assert!(!t.is_error);
    }
}

#[test]
fn spaced_content_renders_quoted_and_round_trips() {
    let part = CommandPart::new("a b");
    assert_eq!(part.to_string(), "'a b'");
    let toks = tokenize(&part.to_string());
    assert_eq!(toks.len(), 1);
    assert_eq!(toks[0].as_str(), "a b");
    assert!(!toks[0].is_error);
}

#[test]
fn error_token_renders_with_warning_prefix() {
    let part = CommandPart::error("'bad");
    assert_eq!(part.to_string(), "Bad_command: 'bad");
}

#[test]
fn plain_token_renders_as_is() {
    let part = CommandPart::new("word");
    assert_eq!(part.to_string(), "word");
    assert!(!part.is_quoted);
}

#[test]
fn part_equality_is_by_content() {
    assert!(CommandPart::new("ab") == CommandPart::new("ab"));
    assert!(CommandPart::new("ab") != CommandPart::new("ac"));
}

#[test]
fn part_starts_with_compares_contents() {
    let long = CommandPart::new("apple");
    let short = CommandPart::new("ap");
    assert!(long.starts_with(&short));
    assert!(!short.starts_with(&long));
}

#[test]
fn command_line_iterator_walks_parts() {
    let cl = CommandLine::new("run now".to_string());
    assert_eq!(cl.as_str(), "run now");
    let mut it = cl.parts();
    let a = it.next().unwrap();
    let b = it.next().unwrap();
    assert_eq!(a.as_str(), "run");
    assert_eq!(b.as_str(), "now");
    assert!(it.next().is_none());
}

#[test]
fn iterator_low_level_helpers() {
    let cl = CommandLine::new("ab cd".to_string());
    let it = cl.parts();
    assert_eq!(it.len(), 5);
    assert!(it.char_is(2, ' '));
    assert!(!it.char_is(0, ' '));
    assert_eq!(it.slice(0, 2), "ab");
    assert_eq!(it.slice_from(3), "cd");
    assert_eq!(it.find_from(0, ' '), Some(2));
    assert_eq!(it.find_from(3, ' '), None);
    assert_eq!(it.find_from_to(0, 2, 'b'), Some(1));
    assert_eq!(it.find_from_to(0, 1, 'b'), None);
}
