use texfmt::lexer::{
    lex_command, lex_comment, lex_delimiter, lex_endline, lex_math, lex_newline, lex_text,
    lex_token, lex_tokens, lex_whitespace, ErrorKind, LexError, Token,
};

fn source_text(t: &Token<&str>) -> String {
    match t {
        Token::Command(x) => format!("\\{x}"),
        Token::Comment(x) => format!("%{x}"),
        Token::Text(x) | Token::Whitespace(x) => x.to_string(),
        Token::Endline => "\\\\".to_string(),
        Token::BDisplayMath => "\\[".to_string(),
        Token::EDisplayMath => "\\]".to_string(),
        Token::TDisplayMath => "$$".to_string(),
        Token::InlineMath => "$".to_string(),
        Token::Newline => "\n".to_string(),
        Token::LBrace => "{".to_string(),
        Token::RBrace => "}".to_string(),
        Token::LBracket => "[".to_string(),
        Token::RBracket => "]".to_string(),
    }
}

#[test]
fn round_trip_reproduces_input() {
    let src = "\\section{Intro} text with \\% and [opt]\n$$x+y$$ % note\n\\\\ end";
    let (rest, tokens) = lex_tokens(src).unwrap();
    assert_eq!(rest, "");
    let back: String = tokens.iter().map(source_text).collect();
    assert_eq!(back, src);
}

#[test]
fn tokenizing_twice_gives_same_tokens() {
    let src = "\\a{b} c\t% d\r\n$e$";
    assert_eq!(lex_tokens(src), lex_tokens(src));
}

#[test]
fn display_math_before_inline() {
    assert_eq!(
        lex_tokens("$$1+2$$"),
        Ok((
            "",
            vec![Token::TDisplayMath, Token::Text("1+2"), Token::TDisplayMath]
        ))
    );
}

#[test]
fn escapes_stay_in_text() {
    assert_eq!(
        lex_tokens(r"(\,\&\;)\["),
        Ok(("", vec![Token::Text(r"(\,\&\;)"), Token::BDisplayMath]))
    );
}

#[test]
fn whitespace_then_newline() {
    assert_eq!(
        lex_tokens(" \t\n \\end"),
        Ok((
            "",
            vec![
                Token::Whitespace(" \t"),
                Token::Newline,
                Token::Whitespace(" "),
                Token::Command("end"),
            ]
        ))
    );
}

#[test]
fn comment_excludes_newline() {
    assert_eq!(
        lex_tokens("% hello world\n"),
        Ok(("", vec![Token::Comment(" hello world"), Token::Newline]))
    );
}

#[test]
fn double_backslash_then_command() {
    assert!(lex_command(r"\\cmd").is_err());
    assert_eq!(
        lex_tokens(r"\\cmd"),
        Ok(("", vec![Token::Endline, Token::Text("cmd")]))
    );
    assert_eq!(
        lex_tokens(r"\\\cmd"),
        Ok(("", vec![Token::Endline, Token::Command("cmd")]))
    );
}

#[test]
fn empty_input() {
    assert_eq!(lex_tokens(""), Ok(("", vec![])));
    assert_eq!(
        lex_token(""),
        Err(LexError {
            input: "",
            code: ErrorKind::Char
        })
    );
}

#[test]
fn stops_at_lone_backslash() {
    assert_eq!(lex_tokens("ab \\"), Ok(("\\", vec![Token::Text("ab"), Token::Whitespace(" ")])));
    assert_eq!(lex_tokens("a\\1b"), Ok(("\\1b", vec![Token::Text("a")])));
    assert_eq!(
        lex_token("\\1b"),
        Err(LexError {
            input: "1b",
            code: ErrorKind::OneOf
        })
    );
}

#[test]
fn crlf_is_one_newline() {
    assert_eq!(lex_newline("\r\nx"), Ok(("x", Token::Newline)));
    assert_eq!(lex_newline("\nx"), Ok(("x", Token::Newline)));
    assert_eq!(
        lex_tokens("a\r\nb"),
        Ok(("", vec![Token::Text("a\r"), Token::Newline, Token::Text("b")]))
    );
    assert_eq!(
        lex_comment("%a\r\n"),
        Ok(("\r\n", Token::Comment("a")))
    );
}

#[test]
fn comment_keeps_lone_carriage_return() {
    assert_eq!(lex_comment("%a\rb\n"), Ok(("\n", Token::Comment("a\rb"))));
    assert_eq!(lex_comment("%"), Ok(("", Token::Comment(""))));
}

#[test]
fn brackets_inside_text() {
    assert_eq!(
        lex_tokens("[a[b]c]"),
        Ok((
            "",
            vec![Token::LBracket, Token::Text("a[b]c]")]
        ))
    );
}

#[test]
fn non_ascii_text_and_payload_slices() {
    assert_eq!(
        lex_tokens("\\é élan naïve"),
        Ok(("\\é élan naïve", vec![]))
    );
    assert_eq!(
        lex_tokens("élan \\emph{naïve}"),
        Ok((
            "",
            vec![
                Token::Text("élan"),
                Token::Whitespace(" "),
                Token::Command("emph"),
                Token::LBrace,
                Token::Text("naïve"),
                Token::RBrace,
            ]
        ))
    );
}

#[test]
fn rule_errors() {
    assert_eq!(
        lex_command("cmd"),
        Err(LexError { input: "cmd", code: ErrorKind::Char })
    );
    assert_eq!(
        lex_comment("x%"),
        Err(LexError { input: "x%", code: ErrorKind::Char })
    );
    assert_eq!(
        lex_endline("\\x"),
        Err(LexError { input: "\\x", code: ErrorKind::Tag })
    );
    assert_eq!(
        lex_math("x$"),
        Err(LexError { input: "x$", code: ErrorKind::Tag })
    );
    assert_eq!(
        lex_whitespace("x "),
        Err(LexError { input: "x ", code: ErrorKind::Space })
    );
    assert_eq!(
        lex_newline("\rx"),
        Err(LexError { input: "\rx", code: ErrorKind::CrLf })
    );
    assert_eq!(
        lex_delimiter("x{"),
        Err(LexError { input: "x{", code: ErrorKind::Char })
    );
    assert_eq!(
        lex_text("{x"),
        Err(LexError { input: "{x", code: ErrorKind::Char })
    );
    assert_eq!(
        lex_text("\\"),
        Err(LexError { input: "", code: ErrorKind::OneOf })
    );
}

#[test]
fn single_rules_match() {
    assert_eq!(lex_endline("\\\\x"), Ok(("x", Token::Endline)));
    assert_eq!(lex_whitespace(" \t x"), Ok(("x", Token::Whitespace(" \t "))));
    assert_eq!(lex_delimiter("{x"), Ok(("x", Token::LBrace)));
    assert_eq!(lex_delimiter("}x"), Ok(("x", Token::RBrace)));
    assert_eq!(lex_delimiter("[x"), Ok(("x", Token::LBracket)));
    assert_eq!(lex_delimiter("]x"), Ok(("x", Token::RBracket)));
    assert_eq!(lex_command("\\abc1"), Ok(("1", Token::Command("abc"))));
    assert_eq!(lex_text("a\\ b c"), Ok((" c", Token::Text("a\\ b"))));
}

#[test]
fn rule_order_in_single_token() {
    assert_eq!(lex_token("\\[x"), Ok(("x", Token::BDisplayMath)));
    assert_eq!(lex_token("\\\\x"), Ok(("x", Token::Endline)));
    assert_eq!(lex_token("\\%x"), Ok(("", Token::Text("\\%x"))));
    assert_eq!(lex_token("%\\cmd"), Ok(("", Token::Comment("\\cmd"))));
    assert_eq!(lex_token("$$$"), Ok(("$", Token::TDisplayMath)));
}
