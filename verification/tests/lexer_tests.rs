use rush::lexer::{Lexer, Token};

fn tokens(input: &str) -> Vec<Token> {
    let mut lexer = Lexer::new(input.to_string());
    let mut out: Vec<Token> = Vec::new();
    loop {
        match lexer.next_token() {
            Some(t) => out.push(t),
            None => return out,
        }
    }
}

fn word(s: &str) -> Token {
    Token::Word(s.to_string())
}

fn operator(s: &str) -> Token {
    Token::Operator(s.to_string())
}

fn ionumber(s: &str) -> Token {
    Token::IoNumber(s.to_string())
}

#[test]
fn empty_input_yields_nothing() {
    assert_eq!(tokens(""), vec![]);
}

#[test]
fn blanks_only_yield_nothing() {
    assert_eq!(tokens("   \t  "), vec![]);
}

#[test]
fn single_word() {
    assert_eq!(tokens("echo"), vec![word("echo")]);
}

#[test]
fn words_split_on_blanks() {
    assert_eq!(tokens("echo hello world"), vec![word("echo"), word("hello"), word("world")]);
    assert_eq!(tokens("a\tb"), vec![word("a"), word("b")]);
}

#[test]
fn quote_transparency() {
    // An embedded blank does not split a quoted word, and the quote
    // characters stay in the lexeme.
    assert_eq!(tokens("'ab cd'"), vec![word("'ab cd'")]);
}

#[test]
fn double_quote_transparency() {
    assert_eq!(tokens("\"a b\"c"), vec![word("\"a b\"c")]);
}

#[test]
fn backslash_escapes_blank() {
    assert_eq!(tokens("a\\ b"), vec![word("a\\ b")]);
}

#[test]
fn newline_delimits_even_inside_quotes() {
    assert_eq!(
        tokens("'a\nb'"),
        vec![word("'a"), Token::NewLine, word("b'")]
    );
}

#[test]
fn unterminated_quote_is_truncated_silently() {
    assert_eq!(tokens("'abc"), vec![word("'abc")]);
}

#[test]
fn io_number_when_adjacent() {
    assert_eq!(tokens("2>file"), vec![ionumber("2"), operator(">"), word("file")]);
}

#[test]
fn io_number_multi_digit() {
    assert_eq!(tokens("10<input"), vec![ionumber("10"), operator("<"), word("input")]);
}

#[test]
fn no_io_number_with_blank_between() {
    // The adjacency check looks at the character right after the lexeme:
    // here that is a blank, so the digits stay an ordinary word.
    assert_eq!(tokens("2 > file"), vec![word("2"), operator(">"), word("file")]);
}

#[test]
fn no_io_number_for_mixed_word() {
    assert_eq!(tokens("2a>x"), vec![word("2a"), operator(">"), word("x")]);
}

#[test]
fn no_io_number_at_end_of_input() {
    assert_eq!(tokens("22"), vec![word("22")]);
}

#[test]
fn comment_contributes_no_token() {
    assert_eq!(
        tokens("echo hi # comment\nls"),
        vec![word("echo"), word("hi"), Token::NewLine, word("ls")]
    );
}

#[test]
fn comment_at_start_runs_to_newline() {
    assert_eq!(tokens("# x\ny"), vec![Token::NewLine, word("y")]);
}

#[test]
fn comment_at_end_of_input() {
    assert_eq!(tokens("#comment"), vec![]);
}

#[test]
fn maximal_munch_each_operator() {
    for op in ["&&", "||", ";", "<<", ">>", "<&", ">&", "<>", "<<-", ">|"] {
        assert_eq!(tokens(op), vec![operator(op)], "operator {:?}", op);
    }
}

#[test]
fn maximal_munch_prefers_longest() {
    assert_eq!(tokens("<<-x"), vec![operator("<<-"), word("x")]);
    assert_eq!(tokens("<<x"), vec![operator("<<"), word("x")]);
    assert_eq!(tokens("<x"), vec![operator("<"), word("x")]);
}

#[test]
fn operators_break_words() {
    assert_eq!(tokens("a&&b"), vec![word("a"), operator("&&"), word("b")]);
    assert_eq!(
        tokens("a||b;c"),
        vec![word("a"), operator("||"), word("b"), operator(";"), word("c")]
    );
    assert_eq!(tokens("ls >|out"), vec![word("ls"), operator(">|"), word("out")]);
}

#[test]
fn newline_is_its_own_token() {
    assert_eq!(tokens("a\nb"), vec![word("a"), Token::NewLine, word("b")]);
    assert_eq!(tokens("\n\n"), vec![Token::NewLine, Token::NewLine]);
}

#[test]
fn nested_substitution_is_one_lexeme() {
    // Nested back-quote command substitution, inner back-quotes escaped:
    // the whole construct stays one word, verbatim.
    assert_eq!(
        tokens("echo `echo \\`date\\``"),
        vec![word("echo"), word("`echo \\`date\\``")]
    );
}

#[test]
fn simple_parameter_reference() {
    assert_eq!(tokens("echo $HOME"), vec![word("echo"), word("$HOME")]);
}

#[test]
fn parameter_substitution() {
    assert_eq!(tokens("${x}y"), vec![word("${x}y")]);
}

#[test]
fn command_substitution() {
    assert_eq!(tokens("$(ls -l)"), vec![word("$(ls -l)")]);
}

#[test]
fn arithmetic_substitution() {
    assert_eq!(tokens("$((1+2))"), vec![word("$((1+2))")]);
}

#[test]
fn substitution_keeps_quoted_closer() {
    // A closing marker inside quotes does not end the substitution.
    assert_eq!(tokens("$(a ')' b)"), vec![word("$(a ')' b)")]);
}

#[test]
fn unterminated_substitution_is_truncated_silently() {
    assert_eq!(tokens("$(foo"), vec![word("$(foo")]);
}

#[test]
fn exhaustion_is_idempotent() {
    let mut lexer = Lexer::new("a".to_string());
    assert_eq!(lexer.next_token(), Some(word("a")));
    assert_eq!(lexer.next_token(), None);
    assert_eq!(lexer.next_token(), None);
    assert_eq!(lexer.next_token(), None);
}

#[test]
fn round_trip_concatenation() {
    // Concatenating the token texts with the discarded separators gives
    // back the input: no characters are invented or dropped inside a
    // token's own lexeme.
    let input = "ab 'c d' 2>e\nf";
    let toks = tokens(input);
    assert_eq!(
        toks,
        vec![
            word("ab"),
            word("'c d'"),
            ionumber("2"),
            operator(">"),
            word("e"),
            Token::NewLine,
            word("f"),
        ]
    );
    let mut rebuilt = String::new();
    rebuilt.push_str("ab");
    rebuilt.push(' ');
    rebuilt.push_str("'c d'");
    rebuilt.push(' ');
    rebuilt.push_str("2");
    rebuilt.push_str(">");
    rebuilt.push_str("e");
    rebuilt.push('\n');
    rebuilt.push_str("f");
    assert_eq!(rebuilt, input);
}

#[test]
fn token_kind_queries() {
    assert!(word("x").is_word());
    assert!(!word("x").is_operator());
    assert!(!word("x").is_ionumber());
    assert!(!word("x").is_newline());
    assert!(operator(";").is_operator());
    assert!(!operator(";").is_word());
    assert!(ionumber("2").is_ionumber());
    assert!(!ionumber("2").is_newline());
    assert!(Token::NewLine.is_newline());
    assert!(!Token::NewLine.is_word());
}

#[test]
fn context_starts_empty() {
    let ctx = rush::lexer::LexerContext::new();
    assert!(ctx.empty());
}

#[test]
fn backslash_at_end_of_input() {
    // Nothing follows the escape character: the word is delimited with
    // the backslash kept in the lexeme.
    assert_eq!(tokens("ab\\"), vec![word("ab\\")]);
}

#[test]
fn backslash_does_not_escape_newline() {
    assert_eq!(
        tokens("ab\\\ncd"),
        vec![word("ab\\"), Token::NewLine, word("cd")]
    );
}
