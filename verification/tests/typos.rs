use typo_scan::typos::TypoAnalyzer;
use typo_scan::typos::WordContext;

fn analyzer() -> TypoAnalyzer {
    let words = "the\nthis\nis\na\nlet\nmessage\nstring\nliteral\nnormal\ncode\ncomment\nsample\nmain\ndone\nstart\npart\nsay\nhello\nworld\n";
    let code_words =
        "// common technical terms\n\nstruct\nimpl\nfn\nhashmap\ndebug\nclone\nmystruct\nprintln\n";
    TypoAnalyzer::new(words, code_words)
}

fn lines_of(content: &str) -> Vec<String> {
    content.lines().map(String::from).collect()
}

#[test]
fn test_check_word() {
    let analyzer = analyzer();

    assert!(analyzer.check_word("the", &WordContext::Code));
    assert!(analyzer.check_word("THE", &WordContext::Code));
    assert!(!analyzer.check_word("thex", &WordContext::Code));

    assert!(analyzer.check_word("struct", &WordContext::Code));
    assert!(analyzer.check_word("impl", &WordContext::Code));
    assert!(analyzer.check_word("fn", &WordContext::Code));

    assert!(analyzer.check_word("snake_case_ident", &WordContext::Code));
    assert!(analyzer.check_word("SCREAMING_SNAKE_CASE", &WordContext::Code));
    assert!(analyzer.check_word("_private_ident", &WordContext::Code));

    assert!(analyzer.check_word("std::string::String", &WordContext::Path));
    assert!(analyzer.check_word("Result<T, E>", &WordContext::Code));
    assert!(analyzer.check_word("x -> y", &WordContext::Code));

    assert!(analyzer.check_word("\"string literal\"", &WordContext::Literal));
    assert!(analyzer.check_word("'c'", &WordContext::Literal));
    assert!(analyzer.check_word("42", &WordContext::Literal));

    assert!(analyzer.check_word("#[derive(Debug)]", &WordContext::Attribute));
    assert!(analyzer.check_word("#[cfg(test)]", &WordContext::Attribute));

    assert!(analyzer.check_word("0xFF", &WordContext::Code));
    assert!(analyzer.check_word("100px", &WordContext::Code));
    assert!(analyzer.check_word("2em", &WordContext::Code));
    assert!(analyzer.check_word("user@example.com", &WordContext::Code));
    assert!(analyzer.check_word("example.com", &WordContext::Code));
    assert!(analyzer.check_word("# Heading", &WordContext::Code));
    assert!(analyzer.check_word("<div>", &WordContext::Code));
}

#[test]
fn test_scan_file() {
    let analyzer = analyzer();
    let content = r#"
            fn main() {
                let message = "This is a sampel message";
                println!("{}", message);
            }
        "#;
    let lines = lines_of(content);

    let typos = analyzer.scan_lines(&lines);
    assert_eq!(typos.len(), 1);
    assert!(typos.iter().any(|(word, line)| word == "sampel" && *line == 3));
}

#[test]
fn test_context_awareness() {
    let analyzer = analyzer();
    let content = r#"
Sampel
c
42
#FF0000
100px
user@example.com
HashMap Debug Clone MyStruct
"#;
    let lines = lines_of(content);

    let typos = analyzer.scan_lines(&lines);

    assert!(typos.iter().any(|(word, _)| word == "Sampel"));

    assert!(!typos.iter().any(|(word, _)| word == "HashMap"));
    assert!(!typos.iter().any(|(word, _)| word == "Debug"));
    assert!(!typos.iter().any(|(word, _)| word == "Clone"));
    assert!(!typos.iter().any(|(word, _)| word == "MyStruct"));
    assert!(!typos.iter().any(|(word, _)| word == "42"));
    assert!(!typos.iter().any(|(word, _)| word == "#FF0000"));
    assert!(!typos.iter().any(|(word, _)| word == "100px"));
    assert!(!typos.iter().any(|(word, _)| word == "user@example.com"));
}

#[test]
fn test_should_ignore_word_cases() {
    assert!(TypoAnalyzer::should_ignore_word("ab"));
    assert!(TypoAnalyzer::should_ignore_word("x"));
    assert!(TypoAnalyzer::should_ignore_word(""));
    assert!(TypoAnalyzer::should_ignore_word("snake_case_ident"));
    assert!(TypoAnalyzer::should_ignore_word("SCREAMING_SNAKE_CASE"));
    assert!(TypoAnalyzer::should_ignore_word("abc123"));
    assert!(TypoAnalyzer::should_ignore_word("_private"));
    assert!(TypoAnalyzer::should_ignore_word("r#type"));
    assert!(TypoAnalyzer::should_ignore_word("0xFF"));
    assert!(TypoAnalyzer::should_ignore_word("100px"));
    assert!(TypoAnalyzer::should_ignore_word("#FF0000"));
    assert!(TypoAnalyzer::should_ignore_word("`code`"));
    assert!(TypoAnalyzer::should_ignore_word("*emphasis"));
    assert!(!TypoAnalyzer::should_ignore_word("MyStruct"));
    assert!(!TypoAnalyzer::should_ignore_word("Abc"));
    assert!(!TypoAnalyzer::should_ignore_word("sampel"));
}

#[test]
fn test_clean_word_and_idempotence() {
    assert_eq!(TypoAnalyzer::clean_word("Hello", &WordContext::Code), "hello");
    assert_eq!(TypoAnalyzer::clean_word("\"Hello\"", &WordContext::Literal), "hello");
    assert_eq!(TypoAnalyzer::clean_word("std", &WordContext::Path), "");
    assert_eq!(TypoAnalyzer::clean_word("anything", &WordContext::Attribute), "");
    assert_eq!(TypoAnalyzer::clean_word("he!lo", &WordContext::Code), "");

    let once = TypoAnalyzer::clean_word("Hello", &WordContext::Comment);
    let twice = TypoAnalyzer::clean_word("Hello", &WordContext::Comment);
    assert_eq!(once, twice);

    let line = "let s = \"abc";
    let c1 = TypoAnalyzer::get_word_context(line, 9, false);
    let c2 = TypoAnalyzer::get_word_context(line, 9, false);
    assert_eq!(c1, c2);
}

#[test]
fn test_get_word_context_cases() {
    assert_eq!(TypoAnalyzer::get_word_context("let s = \"abc", 9, false), WordContext::Literal);
    assert_eq!(TypoAnalyzer::get_word_context("use std", 4, false), WordContext::Path);
    assert_eq!(TypoAnalyzer::get_word_context("// hi", 3, false), WordContext::Comment);
    assert_eq!(TypoAnalyzer::get_word_context("#[x] foo", 5, false), WordContext::Attribute);
    assert_eq!(TypoAnalyzer::get_word_context("plain words", 6, false), WordContext::Code);
    assert_eq!(TypoAnalyzer::get_word_context("plain words", 6, true), WordContext::Comment);
}

#[test]
fn test_dedup_same_context() {
    let analyzer = analyzer();
    let lines = vec![String::from("wrongx wrongx"), String::from("wrongx")];
    let typos = analyzer.scan_lines(&lines);
    assert_eq!(typos.len(), 1);
    assert!(typos.iter().any(|(word, line)| word == "wrongx" && *line == 1));
}

#[test]
fn test_comment_carry_across_lines() {
    let analyzer = analyzer();
    let lines = vec![
        String::from("/* wrongx"),
        String::from("wrongx"),
        String::from("done */"),
    ];
    let typos = analyzer.scan_lines(&lines);
    assert_eq!(typos.len(), 1);
    assert!(typos.iter().any(|(word, line)| word == "wrongx" && *line == 1));
}

#[test]
fn test_path_line_suppressed() {
    let analyzer = analyzer();
    let lines = vec![String::from("use std::string::String;")];
    let typos = analyzer.scan_lines(&lines);
    assert_eq!(typos.len(), 0);
}

#[test]
fn test_literal_scenario() {
    let analyzer = analyzer();
    let lines = vec![String::from("let message = \"This is a sampel message\";")];
    let typos = analyzer.scan_lines(&lines);
    assert_eq!(typos.len(), 1);
    assert!(typos.iter().any(|(word, line)| word == "sampel" && *line == 1));
}

#[test]
fn test_hash_token_scenario() {
    let analyzer = analyzer();
    let lines = vec![String::from("#FF0000")];
    assert_eq!(analyzer.scan_lines(&lines).len(), 0);
}

#[test]
fn test_email_token_scenario() {
    let analyzer = analyzer();
    let lines = vec![String::from("user@example.com")];
    assert_eq!(analyzer.scan_lines(&lines).len(), 0);
}

#[test]
fn test_comment_line_scenario() {
    let analyzer = analyzer();
    let lines = vec![String::from("// Sampel comment"), String::from("normal code")];
    let typos = analyzer.scan_lines(&lines);
    assert_eq!(typos.len(), 1);
    assert!(typos.iter().any(|(word, line)| word == "Sampel" && *line == 1));
}

#[test]
fn test_dictionary_loader_filters() {
    let analyzer = TypoAnalyzer::new("real\n", "// header\n\nterm\n");
    assert!(analyzer.check_word("term", &WordContext::Code));
    assert!(analyzer.check_word("real", &WordContext::Code));
    assert!(!analyzer.check_word("header", &WordContext::Code));
}
