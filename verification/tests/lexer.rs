use routegraph::parse::lexer::{tokenize, TokenKind};
use routegraph::ParseError;

#[test]
fn token_lines_rise_and_newlines_collapse() {
    let text = "a\n\n# c\n{ \"x\ny\" }\r\n\n b";
    let chars: Vec<char> = text.chars().collect();
    let toks = tokenize(&chars).unwrap();
    for w in toks.windows(2) {
        assert!(!(w[0].kind == TokenKind::Newline && w[1].kind == TokenKind::Newline));
        assert!(w[0].line <= w[1].line);
    }
    assert_eq!(toks[0].line, 1);
    let last_line = 1 + text.matches('\n').count() as u32;
    assert_eq!(toks.last().unwrap().line, last_line);
}

#[test]
fn open_quote_is_reported_on_the_last_line() {
    let chars: Vec<char> = "a\n\"open\nstill\n".chars().collect();
    match tokenize(&chars) {
        Err(ParseError::Syntax { message, line }) => {
            assert_eq!(message, "unterminated quoted string");
            assert_eq!(line, 4);
        }
        other => panic!("unexpected {other:?}"),
    }
}

#[test]
fn token_line_is_one_plus_newlines_before_it() {
    let text = "x\n\n{ y\n}";
    let chars: Vec<char> = text.chars().collect();
    let toks = tokenize(&chars).unwrap();
    let lines: Vec<u32> = toks.iter().map(|t| t.line).collect();
    assert_eq!(lines, vec![1, 1, 3, 3, 3, 4]);
}
