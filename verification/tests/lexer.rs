use minilang::lexer::lex;
use minilang::span::Span;
use minilang::tokens::Token;
use minilang::Error;

#[test]
fn it_works() {
    assert_eq!(
        lex("+"),
        (
            Some(vec![(Token::Op("+".to_string()), Span::new(0, 1))]),
            Vec::<Error>::new()
        )
    );

    assert_eq!(
        lex("=="),
        (
            Some(vec![(Token::Op("==".to_string()), Span::new(0, 2))]),
            Vec::<Error>::new()
        )
    );

    assert_eq!(
        lex("// a\n"),
        (
            Some(vec![(Token::Comment("// a".to_string()), Span::new(0, 5))]),
            Vec::<Error>::new()
        )
    );

    assert_eq!(
        lex("// a\n1"),
        (
            Some(vec![
                (Token::Comment("// a".to_string()), Span::new(0, 5)),
                (Token::Num("1".to_string()), Span::new(5, 6))
            ]),
            Vec::<Error>::new()
        )
    );
}

#[test]
fn keywords_and_idents() {
    let (toks, errs) = lex("fn var if else return foo _bar9");
    assert!(errs.is_empty());
    let toks: Vec<Token> = toks.unwrap().into_iter().map(|p| p.0).collect();
    assert_eq!(
        toks,
        vec![
            Token::Fn,
            Token::Var,
            Token::If,
            Token::Else,
            Token::Return,
            Token::Ident("foo".to_string()),
            Token::Ident("_bar9".to_string()),
        ]
    );
}

#[test]
fn operators_and_ctrl() {
    let (toks, errs) = lex("<= >= != && || < > = + - * / % (){}[];,:");
    assert!(errs.is_empty());
    let toks: Vec<Token> = toks.unwrap().into_iter().map(|p| p.0).collect();
    let ops = ["<=", ">=", "!=", "&&", "||", "<", ">", "=", "+", "-", "*", "/", "%"];
    for (i, o) in ops.iter().enumerate() {
        assert_eq!(toks[i], Token::Op(o.to_string()));
    }
    let ctrls = ['(', ')', '{', '}', '[', ']', ';', ',', ':'];
    for (i, c) in ctrls.iter().enumerate() {
        assert_eq!(toks[ops.len() + i], Token::Ctrl(*c));
    }
}

#[test]
fn numbers_are_maximal_digit_runs() {
    let (toks, errs) = lex("007 42x");
    assert!(errs.is_empty());
    let toks = toks.unwrap();
    assert_eq!(toks[0], (Token::Num("007".to_string()), Span::new(0, 3)));
    assert_eq!(toks[1], (Token::Num("42".to_string()), Span::new(4, 6)));
    assert_eq!(toks[2], (Token::Ident("x".to_string()), Span::new(6, 7)));
}

// Lexing is total: an unrecognized character is reported at its span and
// skipped, and the rest of the input still produces tokens.
#[test]
fn unrecognized_characters_are_recoverable() {
    let (toks, errs) = lex("1 @ § 2");
    let toks = toks.unwrap();
    assert_eq!(toks.len(), 2);
    assert_eq!(toks[0].0, Token::Num("1".to_string()));
    assert_eq!(toks[1].0, Token::Num("2".to_string()));
    assert_eq!(errs.len(), 2);
    assert_eq!(errs[0].span, Span::new(2, 3));
    assert_eq!(errs[0].msg, "unrecognized character");
    assert_eq!(errs[1].span, Span::new(4, 5));
}

#[test]
fn comment_without_newline_runs_to_end() {
    let (toks, errs) = lex("1 // tail");
    assert!(errs.is_empty());
    let toks = toks.unwrap();
    assert_eq!(toks[1], (Token::Comment("// tail".to_string()), Span::new(2, 9)));
}

// Re-lexing the concatenation of two cleanly lexed fragments, the first
// ending with a newline, yields the first fragment's tokens followed by the
// second's with shifted spans.
#[test]
fn concatenation_of_fragments() {
    let a = "var x\n";
    let b = "1;";
    let (ta, ea) = lex(a);
    let (tb, eb) = lex(b);
    assert!(ea.is_empty() && eb.is_empty());
    let joined = format!("{}{}", a, b);
    let (tc, ec) = lex(&joined);
    assert!(ec.is_empty());
    let d = a.chars().count();
    let mut expected = ta.unwrap();
    for (t, s) in tb.unwrap() {
        expected.push((t, Span::new(s.start + d, s.end + d)));
    }
    assert_eq!(tc.unwrap(), expected);
}
