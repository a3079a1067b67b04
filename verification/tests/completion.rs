use cmdui::Candidate;
use cmdui::CommandCompleter;
use cmdui::CommandPart;
use cmdui::KeywordExpander;

struct DemoKeywordExpander {}

impl KeywordExpander for DemoKeywordExpander {
    fn command_list(&self) -> Vec<String> {
        vec![
            "set attr1 <bool>".to_string(),
            "set attr2 <int>".to_string(),
            "add <key> <word>".to_string(),
            "run".to_string(),
            "read <filename>".to_string(),
            "help".to_string(),
        ]
    }

    fn expand_keyword(&self, cp: &CommandPart, parts: &Vec<String>) -> Vec<String> {
        let _ = parts;
        match cp.as_str() {
            "<filename>" => vec!["notes.txt".to_string(), "news/".to_string()],
            "<key>" => vec!["akey".to_string(), "bkey".to_string(), "ckey".to_string()],
            "<word>" => vec!["apple".to_string(), "orange".to_string(), "banana".to_string()],
            "<bool>" => vec!["false".to_string(), "true".to_string()],
            "<int>" => vec![],
            s => vec![s.to_string()],
        }
    }
}

fn complete_line(line: &str) -> Vec<Candidate> {
    let exp = DemoKeywordExpander {};
    CommandCompleter::new(&exp).complete(line)
}

fn displays(cs: &Vec<Candidate>) -> Vec<String> {
    cs.iter().map(|c| c.display.clone()).collect()
}

#[test]
fn second_word_candidates_with_replacements() {
    let cs = complete_line("set a");
    assert_eq!(displays(&cs), vec!["attr1", "attr2"]);
    assert_eq!(cs[0].replacement, "set attr1 ");
    assert_eq!(cs[1].replacement, "set attr2 ");
}

#[test]
fn no_word_starts_with_partial_text() {
    let exp = DemoKeywordExpander {};
    let cs = CommandCompleter::new(&exp).complete("add 'my key' wo");
    assert_eq!(cs.len(), 0);
}

#[test]
fn error_token_suppresses_completion() {
    let cs = complete_line("ab'c d");
    assert_eq!(cs.len(), 0);
}

#[test]
fn first_word_candidates_are_sorted() {
    let cs = complete_line("r");
    assert_eq!(displays(&cs), vec!["read", "run"]);
    assert_eq!(cs[0].replacement, "read ");
    assert_eq!(cs[1].replacement, "run");
}

#[test]
fn candidates_filter_by_prefix_of_partial_token() {
    struct FruitExpander {}
    impl KeywordExpander for FruitExpander {
        fn command_list(&self) -> Vec<String> {
            vec!["add <word>".to_string()]
        }

        fn expand_keyword(&self, cp: &CommandPart, _parts: &Vec<String>) -> Vec<String> {
            match cp.as_str() {
                "<word>" => vec![
                    "apple".to_string(),
                    "apricot".to_string(),
                    "banana".to_string(),
                ],
                s => vec![s.to_string()],
            }
        }
    }
    let exp = FruitExpander {};
    let cs = CommandCompleter::new(&exp).complete("add ap");
    assert_eq!(displays(&cs), vec!["apple", "apricot"]);
    assert_eq!(cs[0].replacement, "add apple");
    assert_eq!(cs[1].replacement, "add apricot");
}

#[test]
fn duplicate_displays_are_offered_once() {
    struct TwinExpander {}
    impl KeywordExpander for TwinExpander {
        fn command_list(&self) -> Vec<String> {
            vec!["show fast".to_string(), "show fair".to_string()]
        }

        fn expand_keyword(&self, cp: &CommandPart, _parts: &Vec<String>) -> Vec<String> {
            vec![cp.as_str().to_string()]
        }
    }
    let exp = TwinExpander {};
    let cs = CommandCompleter::new(&exp).complete("sh");
    assert_eq!(displays(&cs), vec!["show"]);
    assert_eq!(cs[0].replacement, "show ");
}

#[test]
fn exhausted_typed_tokens_offer_nothing() {
    let cs = complete_line("run more x");
    assert_eq!(cs.len(), 0);
}
